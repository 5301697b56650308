//! A registry of manifests that are published once and never rewritten.

use vstd::prelude::*;

use crate::row::Digest;
use crate::table::{chosen, Pick, Table};
use crate::text::{digit, hex, hex_text, join3, join5, same};

verus! {

// ── Hexadecimal ─────────────────────────────────────────────────────────────

/// Whether a character is a hexadecimal digit, of either case.
pub open spec fn is_hex_digit(c: char) -> bool {
    ||| '0' <= c <= '9'
    ||| 'a' <= c <= 'f'
    ||| 'A' <= c <= 'F'
}

/// The value of a hexadecimal digit.
pub open spec fn hex_value(c: char) -> int {
    if '0' <= c <= '9' {
        c as int - '0' as int
    } else if 'a' <= c <= 'f' {
        c as int - 'a' as int + 10
    } else {
        c as int - 'A' as int + 10
    }
}

/// Whether a text is hexadecimal: digits, two to a byte.
pub open spec fn is_hex(s: Seq<char>) -> bool {
    &&& s.len() % 2 == 0
    &&& forall|i: int| 0 <= i < s.len() ==> is_hex_digit(#[trigger] s[i])
}

/// The bytes that a hexadecimal text stands for.
pub open spec fn hex_bytes(s: Seq<char>) -> Seq<u8> {
    Seq::new(
        s.len() / 2,
        |i: int| (16 * hex_value(s[2 * i]) + hex_value(s[2 * i + 1])) as u8,
    )
}

/// `hex::decode`: the bytes that the text stands for, where it is hexadecimal in
/// either case, and nothing where it is not.
#[verifier::external_body]
fn hex_decode(s: &str) -> (r: Option<Vec<u8>>)
    ensures
        match r {
            Some(b) => is_hex(s@) && b@ == hex_bytes(s@),
            None => !is_hex(s@),
        },
{
    hex::decode(s).ok()
}

/// Bytes written in hexadecimal read back as they were.
pub proof fn law_hex_round_trip(b: Seq<u8>)
    ensures
        is_hex(hex_text(b)),
        hex_bytes(hex_text(b)) == b,
        hex_text(b).len() == 2 * b.len(),
    decreases b.len(),
{
    if b.len() > 0 {
        let d = b.drop_last();
        law_hex_round_trip(d);
        let s = hex_text(d);
        let hi = digit(b.last() as int / 16);
        let lo = digit(b.last() as int % 16);
        let t = hex_text(b);
        assert(t == s.push(hi).push(lo));
        assert(hex_value(hi) == b.last() as int / 16 && is_hex_digit(hi));
        assert(hex_value(lo) == b.last() as int % 16 && is_hex_digit(lo));
        assert forall|i: int| 0 <= i < t.len() implies is_hex_digit(#[trigger] t[i]) by {
            if i < s.len() {
                assert(t[i] == s[i]);
            }
        }
        let bytes = hex_bytes(t);
        assert(bytes.len() == b.len());
        assert forall|i: int| 0 <= i < b.len() implies bytes[i] == b[i] by {
            if i < d.len() {
                assert(t[2 * i] == s[2 * i] && t[2 * i + 1] == s[2 * i + 1]);
                assert(bytes[i] == hex_bytes(s)[i]);
                assert(b[i] == d[i]);
            } else {
                assert(t[2 * i] == hi && t[2 * i + 1] == lo);
                assert(16 * (b.last() as int / 16) + b.last() as int % 16 == b.last() as int);
            }
        }
        assert(bytes =~= b);
    } else {
        assert(hex_bytes(hex_text(b)) =~= b);
    }
}

// ── Rows ────────────────────────────────────────────────────────────────────

/// Who vouches for a manifest.
#[derive(Debug)]
pub struct Attestation {
    pub key_id: String,
    pub signature: Vec<u8>,
}

impl View for Attestation {
    type V = (Seq<char>, Seq<u8>);

    open spec fn view(&self) -> (Seq<char>, Seq<u8>) {
        (self.key_id@, self.signature@)
    }
}

/// What an optional attestation says.
pub open spec fn vouched(a: Option<Attestation>) -> Option<(Seq<char>, Seq<u8>)> {
    match a {
        Some(a) => Some(a@),
        None => None,
    }
}

/// A manifest as it is stored.
#[derive(Debug)]
pub struct ManifestRow {
    /// The digest, in hexadecimal.
    pub digest: String,
    pub yaml: String,
    /// Who signed it; empty where nobody did.
    pub key_id: String,
    /// The signature, in hexadecimal.
    pub signature: String,
}

/// What a [`ManifestRow`] says.
pub struct ManifestModel {
    pub digest: Seq<char>,
    pub yaml: Seq<char>,
    pub key_id: Seq<char>,
    pub signature: Seq<char>,
}

impl View for ManifestRow {
    type V = ManifestModel;

    open spec fn view(&self) -> ManifestModel {
        ManifestModel {
            digest: self.digest@,
            yaml: self.yaml@,
            key_id: self.key_id@,
            signature: self.signature@,
        }
    }
}

/// The attestation that a row carries. Where there is no key there is none; a
/// signature that does not decode is an empty one, which verifies as little.
pub open spec fn attestation_read(key_id: Seq<char>, signature: Seq<char>) -> Option<
    (Seq<char>, Seq<u8>),
> {
    if key_id == ""@ {
        None
    } else if is_hex(signature) {
        Some((key_id, hex_bytes(signature)))
    } else {
        Some((key_id, Seq::empty()))
    }
}

/// Reads the attestation that a row carries.
pub fn stored_attestation(key_id: &str, signature: &str) -> (a: Option<Attestation>)
    ensures
        vouched(a) == attestation_read(key_id@, signature@),
{
    if same(key_id, "") {
        return None;
    }
    let signature = match hex_decode(signature) {
        Some(bytes) => bytes,
        None => Vec::new(),
    };
    assert(signature@.len() == 0 ==> signature@ =~= Seq::<u8>::empty());
    Some(Attestation { key_id: key_id.to_owned(), signature })
}

/// The two columns that an attestation is stored in.
pub open spec fn attestation_columns(a: Option<(Seq<char>, Seq<u8>)>) -> (Seq<char>, Seq<char>) {
    match a {
        Some((key_id, signature)) => (key_id, hex_text(signature)),
        None => (""@, ""@),
    }
}

/// Writes an attestation as its two columns.
pub fn attestation_row(a: &Option<Attestation>) -> (r: (String, String))
    ensures
        (r.0@, r.1@) == attestation_columns(vouched(*a)),
{
    match a {
        Some(a) => (a.key_id.clone(), hex(a.signature.as_slice())),
        None => ("".to_owned(), "".to_owned()),
    }
}

/// An attestation by a key that has a name reads back as it was written.
pub proof fn law_attestation_round_trip(a: (Seq<char>, Seq<u8>))
    requires
        a.0 != ""@,
    ensures
        attestation_read(attestation_columns(Some(a)).0, attestation_columns(Some(a)).1) == Some(a),
{
    law_hex_round_trip(a.1);
}

// ── The registry ────────────────────────────────────────────────────────────

/// A refusal by the registry.
#[derive(Debug)]
pub enum RegistryError {
    /// No such manifest is published.
    NotFound { name: String, version: String },
    /// The manifest may not be published over what is there, and why.
    Refused(String),
    /// The store could not answer.
    Backend(String),
}

/// What a [`RegistryError`] says.
pub enum RegistryRefusal {
    NotFound { name: Seq<char>, version: Seq<char> },
    Refused(Seq<char>),
    Backend(Seq<char>),
}

impl View for RegistryError {
    type V = RegistryRefusal;

    open spec fn view(&self) -> RegistryRefusal {
        match self {
            RegistryError::NotFound { name, version } => RegistryRefusal::NotFound {
                name: name@,
                version: version@,
            },
            RegistryError::Refused(why) => RegistryRefusal::Refused(why@),
            RegistryError::Backend(why) => RegistryRefusal::Backend(why@),
        }
    }
}

/// What to do with a manifest that may be published.
#[derive(Debug, Clone, Copy, PartialEq, Eq, Structural)]
pub enum PublishVerdict {
    /// Nothing is there: write it.
    Insert,
    /// It is there, and is vouched for from now on.
    AdoptAttestation,
    /// It is there as it is.
    Unchanged,
}

/// What the rules say to a publication.
pub open spec fn ruling(v: Result<PublishVerdict, RegistryError>) -> Result<
    PublishVerdict,
    RegistryRefusal,
> {
    match v {
        Ok(v) => Ok(v),
        Err(e) => Err(e@),
    }
}

/// A tenant's manifest: its name and version.
pub type ManifestKey = (Seq<char>, (Seq<char>, Seq<char>));

/// The manifests of a plane.
pub struct ManifestRegistry {
    pub manifests: Table<(String, (String, String)), ManifestRow>,
}

impl View for ManifestRegistry {
    type V = Map<ManifestKey, ManifestModel>;

    open spec fn view(&self) -> Map<ManifestKey, ManifestModel> {
        self.manifests@
    }
}

/// Whether a text is a digest in hexadecimal.
pub open spec fn is_digest(hex: Seq<char>) -> bool {
    is_hex(hex) && hex.len() == 64
}

pub open spec fn not_a_digest_text(name: Seq<char>, version: Seq<char>, hex: Seq<char>) -> Seq<
    char,
> {
    "registry row '"@ + name + "' '"@ + version + "' holds '"@ + hex + "', which is not a digest"@
}

/// What is there under a name and version: its digest and who vouches for it.
pub open spec fn stored_answer(
    m: Map<ManifestKey, ManifestModel>,
    k: ManifestKey,
) -> Result<Option<(Seq<u8>, Option<(Seq<char>, Seq<u8>)>)>, RegistryRefusal> {
    if !m.contains_key(k) {
        Ok(None)
    } else if !is_digest(m[k].digest) {
        Err(RegistryRefusal::Backend(not_a_digest_text(k.1.0, k.1.1, m[k].digest)))
    } else {
        Ok(
            Some(
                (
                    hex_bytes(m[k].digest),
                    attestation_read(m[k].key_id, m[k].signature),
                ),
            ),
        )
    }
}

/// What publishing a manifest is refused with, given what the rules say to it.
/// A row that cannot be read is refused before they are asked, a manifest is
/// never written over one that is there, and nothing but the same content is
/// taken for what is there.
pub open spec fn publish_refusal(
    m: Map<ManifestKey, ManifestModel>,
    k: ManifestKey,
    digest: Seq<u8>,
    verdict: Result<PublishVerdict, RegistryRefusal>,
) -> Option<RegistryRefusal> {
    match stored_answer(m, k) {
        Err(e) => Some(e),
        Ok(stored) => match verdict {
            Err(e) => Some(e),
            Ok(PublishVerdict::Insert) if stored is Some => Some(
                RegistryRefusal::Backend("a published manifest is not overwritten"@),
            ),
            Ok(_) => match stored {
                Some((there, _)) if there != digest => Some(
                    RegistryRefusal::Backend("the published manifest holds other content"@),
                ),
                _ => None,
            },
        },
    }
}

/// The manifests after one was published.
pub open spec fn published(
    m: Map<ManifestKey, ManifestModel>,
    k: ManifestKey,
    digest: Seq<u8>,
    yaml: Seq<char>,
    a: Option<(Seq<char>, Seq<u8>)>,
    verdict: PublishVerdict,
) -> Map<ManifestKey, ManifestModel> {
    let (key_id, signature) = attestation_columns(a);
    match verdict {
        PublishVerdict::Insert => m.insert(
            k,
            ManifestModel { digest: hex_text(digest), yaml, key_id, signature },
        ),
        PublishVerdict::AdoptAttestation => if m.contains_key(k) {
            m.insert(k, ManifestModel { key_id, signature, ..m[k] })
        } else {
            m
        },
        PublishVerdict::Unchanged => m,
    }
}

/// The manifests of a tenant under a name.
pub open spec fn named(t: Seq<char>, name: Seq<char>) -> spec_fn((ManifestKey, ManifestModel)) -> bool {
    |e: (ManifestKey, ManifestModel)| e.0.0 == t && e.0.1.0 == name
}

/// The manifests of a tenant.
pub open spec fn published_in(t: Seq<char>) -> spec_fn((ManifestKey, ManifestModel)) -> bool {
    |e: (ManifestKey, ManifestModel)| e.0.0 == t
}

/// The names in the first `n` rows, each once and in order.
pub open spec fn names_in(rows: Seq<(ManifestKey, ManifestModel)>, n: int) -> Seq<Seq<char>>
    decreases n,
{
    if n <= 0 {
        Seq::empty()
    } else {
        let before = names_in(rows, n - 1);
        if before.len() > 0 && before.last() == rows[n - 1].0.1.0 {
            before
        } else {
            before.push(rows[n - 1].0.1.0)
        }
    }
}

/// What asking for the text of a manifest answers.
pub open spec fn row_answer(m: Map<ManifestKey, ManifestModel>, k: ManifestKey) -> Result<
    (Seq<char>, Option<(Seq<char>, Seq<u8>)>),
    RegistryRefusal,
> {
    if m.contains_key(k) {
        Ok((m[k].yaml, attestation_read(m[k].key_id, m[k].signature)))
    } else {
        Err(RegistryRefusal::NotFound { name: k.1.0, version: k.1.1 })
    }
}

/// The versions of a manifest, in order.
pub open spec fn versions_of(m: Map<ManifestKey, ManifestModel>, t: Seq<char>, name: Seq<char>) -> Seq<
    Seq<char>,
> {
    let rows = chosen::<(String, (String, String)), ManifestModel>(m, named(t, name));
    Seq::new(rows.len(), |i: int| rows[i].0.1.1)
}

/// The names that manifests are published under, each once and in order.
pub open spec fn names_of(m: Map<ManifestKey, ManifestModel>, t: Seq<char>) -> Seq<Seq<char>> {
    let rows = chosen::<(String, (String, String)), ManifestModel>(m, published_in(t));
    names_in(rows, rows.len() as int)
}

struct Named<'a> {
    tenant: &'a str,
    name: &'a str,
}

impl<'a> Pick<(String, (String, String)), ManifestRow> for Named<'a> {
    closed spec fn picks(&self, k: ManifestKey, r: ManifestModel) -> bool {
        k.0 == self.tenant@ && k.1.0 == self.name@
    }

    fn test(&self, k: &(String, (String, String)), r: &ManifestRow) -> (b: bool) {
        same(&k.0, self.tenant) && same(&k.1.0, self.name)
    }
}

struct PublishedIn<'a> {
    tenant: &'a str,
}

impl<'a> Pick<(String, (String, String)), ManifestRow> for PublishedIn<'a> {
    closed spec fn picks(&self, k: ManifestKey, r: ManifestModel) -> bool {
        k.0 == self.tenant@
    }

    fn test(&self, k: &(String, (String, String)), r: &ManifestRow) -> (b: bool) {
        same(&k.0, self.tenant)
    }
}

impl ManifestRegistry {
    /// No manifests.
    pub fn new() -> (r: ManifestRegistry)
        ensures
            r@ == Map::<ManifestKey, ManifestModel>::empty(),
    {
        ManifestRegistry { manifests: Table::new() }
    }

    /// What is there under a name and version: what the rules on publishing are
    /// asked about.
    pub fn stored(&self, tenant: &str, name: &str, version: &str) -> (r: Result<
        Option<(Vec<u8>, Option<Attestation>)>,
        RegistryError,
    >)
        ensures
            stored_answer(self@, (tenant@, (name@, version@))) == match r {
                Ok(Some((d, a))) => Ok::<
                    Option<(Seq<u8>, Option<(Seq<char>, Seq<u8>)>)>,
                    RegistryRefusal,
                >(Some((d@, vouched(a)))),
                Ok(None) => Ok::<
                    Option<(Seq<u8>, Option<(Seq<char>, Seq<u8>)>)>,
                    RegistryRefusal,
                >(None),
                Err(e) => Err::<
                    Option<(Seq<u8>, Option<(Seq<char>, Seq<u8>)>)>,
                    RegistryRefusal,
                >(e@),
            },
    {
        match self.manifests.get(&(tenant.to_owned(), (name.to_owned(), version.to_owned()))) {
            None => Ok(None),
            Some(row) => {
                let decoded = match hex_decode(&row.digest) {
                    Some(bytes) => {
                        assert(bytes@.len() == row.digest@.len() / 2);
                        if bytes.len() == 32 {
                            Some(bytes)
                        } else {
                            None
                        }
                    },
                    None => None,
                };
                match decoded {
                    Some(bytes) => Ok(
                        Some((bytes, stored_attestation(&row.key_id, &row.signature))),
                    ),
                    None => Err(
                        RegistryError::Backend(
                            join3(
                                &join5("registry row '", name, "' '", version, "' holds '"),
                                &row.digest,
                                "', which is not a digest",
                            ),
                        ),
                    ),
                }
            },
        }
    }

    /// Publishes a manifest, given what the rules say to it, and gives its digest
    /// back.
    pub fn publish_row(
        &mut self,
        tenant: &str,
        name: &str,
        version: &str,
        digest: Digest,
        yaml: &str,
        attestation: &Option<Attestation>,
        verdict: Result<PublishVerdict, RegistryError>,
    ) -> (r: Result<Digest, RegistryError>)
        ensures
            ({
                let k = (tenant@, (name@, version@));
                match r {
                    Ok(d) => d@ == digest@ && publish_refusal(
                        old(self)@,
                        k,
                        digest@,
                        ruling(verdict),
                    ) is None && verdict is Ok && final(self)@ == published(
                        old(self)@,
                        k,
                        digest@,
                        yaml@,
                        vouched(*attestation),
                        verdict->Ok_0,
                    ),
                    Err(e) => publish_refusal(old(self)@, k, digest@, ruling(verdict)) == Some(e@)
                        && final(self)@ == old(self)@,
                }
            }),
    {
        let there = match self.stored(tenant, name, version) {
            Err(e) => {
                return Err(e);
            },
            Ok(stored) => stored,
        };
        let verdict = match verdict {
            Err(e) => {
                return Err(e);
            },
            Ok(v) => v,
        };
        let key = (tenant.to_owned(), (name.to_owned(), version.to_owned()));
        let (key_id, signature) = attestation_row(attestation);
        let other = match &there {
            Some((stored, _)) => {
                assert(stored@.len() == 32);
                match crate::row::digest(stored.as_slice()) {
                    Ok(d) => !d.same(&digest),
                    Err(_) => true,
                }
            },
            None => false,
        };
        if other && !matches!(verdict, PublishVerdict::Insert) {
            return Err(
                RegistryError::Backend("the published manifest holds other content".to_owned()),
            );
        }
        match verdict {
            PublishVerdict::Insert => {
                if there.is_some() {
                    return Err(
                        RegistryError::Backend(
                            "a published manifest is not overwritten".to_owned(),
                        ),
                    );
                }
                let row = ManifestRow {
                    digest: hex(&digest.bytes),
                    yaml: yaml.to_owned(),
                    key_id,
                    signature,
                };
                self.manifests.insert(key, row);
            },
            PublishVerdict::AdoptAttestation => {
                let row = match self.manifests.get(&key) {
                    Some(row) => ManifestRow {
                        digest: row.digest.clone(),
                        yaml: row.yaml.clone(),
                        key_id,
                        signature,
                    },
                    None => {
                        return Ok(digest);
                    },
                };
                self.manifests.insert(key, row);
            },
            PublishVerdict::Unchanged => {},
        }
        Ok(digest)
    }

    /// The text of a manifest and who vouches for it.
    pub fn row(&self, tenant: &str, name: &str, version: &str) -> (r: Result<
        (String, Option<Attestation>),
        RegistryError,
    >)
        ensures
            row_answer(self@, (tenant@, (name@, version@))) == match r {
                Ok((yaml, a)) => Ok::<
                    (Seq<char>, Option<(Seq<char>, Seq<u8>)>),
                    RegistryRefusal,
                >((yaml@, vouched(a))),
                Err(e) => Err::<(Seq<char>, Option<(Seq<char>, Seq<u8>)>), RegistryRefusal>(e@),
            },
    {
        match self.manifests.get(&(tenant.to_owned(), (name.to_owned(), version.to_owned()))) {
            Some(row) => Ok(
                (row.yaml.clone(), stored_attestation(&row.key_id, &row.signature)),
            ),
            None => Err(
                RegistryError::NotFound { name: name.to_owned(), version: version.to_owned() },
            ),
        }
    }

    /// The versions of a manifest, in order.
    pub fn versions(&self, tenant: &str, name: &str) -> (out: Vec<String>)
        ensures
            crate::text::texts(out@) == versions_of(self@, tenant@, name@),
    {
        let ghost f = named(tenant@, name@);
        let keys = self.manifests.select(&Named { tenant, name }, usize::MAX, Ghost(f));
        let ghost rows = chosen::<(String, (String, String)), ManifestModel>(self@, f);
        let mut out: Vec<String> = Vec::new();
        let mut i: usize = 0;
        while i < keys.len()
            invariant
                i <= keys@.len(),
                keys@.len() == rows.len(),
                out@.len() == i,
                forall|j: int| 0 <= j < keys@.len() ==> (#[trigger] keys@[j])@ == rows[j].0,
                forall|j: int| 0 <= j < i ==> (#[trigger] out@[j])@ == rows[j].0.1.1,
            decreases keys@.len() - i,
        {
            assert(keys@[i as int]@ == rows[i as int].0);
            out.push(keys[i].1.1.clone());
            i = i + 1;
        }
        assert(crate::text::texts(out@) =~= Seq::new(rows.len(), |i: int| rows[i].0.1.1));
        out
    }

    /// The names that manifests are published under, each once and in order.
    pub fn names(&self, tenant: &str) -> (out: Vec<String>)
        ensures
            crate::text::texts(out@) == names_of(self@, tenant@),
    {
        let ghost f = published_in(tenant@);
        let keys = self.manifests.select(&PublishedIn { tenant }, usize::MAX, Ghost(f));
        let ghost rows = chosen::<(String, (String, String)), ManifestModel>(self@, f);
        let mut out: Vec<String> = Vec::new();
        let mut i: usize = 0;
        assert(crate::text::texts(out@) =~= Seq::<Seq<char>>::empty());
        while i < keys.len()
            invariant
                i <= keys@.len(),
                keys@.len() == rows.len(),
                forall|j: int| 0 <= j < keys@.len() ==> (#[trigger] keys@[j])@ == rows[j].0,
                crate::text::texts(out@) == names_in(rows, i as int),
            decreases keys@.len() - i,
        {
            assert(keys@[i as int]@ == rows[i as int].0);
            let name = &keys[i].1.0;
            let n = out.len();
            let ghost so_far = crate::text::texts(out@);
            let repeated = n > 0 && same(&out[n - 1], name);
            assert(n > 0 ==> so_far.last() == out@[n - 1]@);
            if !repeated {
                out.push(name.clone());
                assert(crate::text::texts(out@) =~= so_far.push(name@));
            }
            i = i + 1;
        }
        out
    }
}

// ── Laws ────────────────────────────────────────────────────────────────────

/// What is published is never rewritten: whatever is published over it, and
/// whatever the rules say to that, its digest and its text stay.
pub proof fn law_published_is_immutable(
    m: Map<ManifestKey, ManifestModel>,
    k: ManifestKey,
    other: ManifestKey,
    digest: Seq<u8>,
    yaml: Seq<char>,
    a: Option<(Seq<char>, Seq<u8>)>,
    verdict: PublishVerdict,
)
    requires
        m.contains_key(k),
        publish_refusal(m, other, digest, Ok::<PublishVerdict, RegistryRefusal>(verdict)) is None,
    ensures
        published(m, other, digest, yaml, a, verdict).contains_key(k),
        published(m, other, digest, yaml, a, verdict)[k].digest == m[k].digest,
        published(m, other, digest, yaml, a, verdict)[k].yaml == m[k].yaml,
{
}

/// Nobody vouches for content that is not there: an attestation is only ever
/// taken on for the very content that is published.
pub proof fn law_attestation_is_for_this_content(
    m: Map<ManifestKey, ManifestModel>,
    k: ManifestKey,
    digest: Seq<u8>,
)
    requires
        m.contains_key(k),
        publish_refusal(
            m,
            k,
            digest,
            Ok::<PublishVerdict, RegistryRefusal>(PublishVerdict::AdoptAttestation),
        ) is None,
    ensures
        hex_bytes(m[k].digest) == digest,
{
}

/// What was published is what is there: its digest, and who vouched for it.
pub proof fn law_publication_reads_back(
    m: Map<ManifestKey, ManifestModel>,
    k: ManifestKey,
    digest: Seq<u8>,
    yaml: Seq<char>,
    a: Option<(Seq<char>, Seq<u8>)>,
)
    requires
        digest.len() == 32,
        a matches Some(v) ==> v.0 != ""@,
    ensures
        stored_answer(published(m, k, digest, yaml, a, PublishVerdict::Insert), k) == Ok::<
            Option<(Seq<u8>, Option<(Seq<char>, Seq<u8>)>)>,
            RegistryRefusal,
        >(Some((digest, a))),
{
    law_hex_round_trip(digest);
    if let Some(v) = a {
        law_attestation_round_trip(v);
    }
}

/// A manifest is published where nothing is there and the rules say so; what is
/// there is kept, and only the same content is taken for it. A ruling against it
/// refuses it.
pub proof fn law_publishing_never_overwrites(
    m: Map<ManifestKey, ManifestModel>,
    k: ManifestKey,
    digest: Seq<u8>,
    why: RegistryRefusal,
    verdict: PublishVerdict,
)
    requires
        m.contains_key(k) ==> is_hex(m[k].digest) && m[k].digest.len() == 64,
    ensures
        publish_refusal(m, k, digest, Err::<PublishVerdict, RegistryRefusal>(why)) == Some(why),
        publish_refusal(
            m,
            k,
            digest,
            Ok::<PublishVerdict, RegistryRefusal>(PublishVerdict::Insert),
        ) is None <==> !m.contains_key(k),
        verdict != PublishVerdict::Insert ==> (publish_refusal(
            m,
            k,
            digest,
            Ok::<PublishVerdict, RegistryRefusal>(verdict),
        ) is None <==> (m.contains_key(k) ==> hex_bytes(m[k].digest) == digest)),
{
}

/// What was published is read as it was given, until somebody else vouches for it;
/// that changes who does and nothing else. Nothing is read that was not published,
/// and no other manifest is touched.
pub proof fn law_manifest_reads_back(
    m: Map<ManifestKey, ManifestModel>,
    k: ManifestKey,
    digest: Seq<u8>,
    yaml: Seq<char>,
    other_text: Seq<char>,
    a: (Seq<char>, Seq<u8>),
    b: (Seq<char>, Seq<u8>),
    other: ManifestKey,
)
    requires
        digest.len() == 32,
        a.0 != ""@,
        b.0 != ""@,
    ensures
        ({
            let first = published(m, k, digest, yaml, Some(a), PublishVerdict::Insert);
            let next = published(
                first,
                k,
                digest,
                other_text,
                Some(b),
                PublishVerdict::AdoptAttestation,
            );
            &&& row_answer(first, k) == Ok::<
                (Seq<char>, Option<(Seq<char>, Seq<u8>)>),
                RegistryRefusal,
            >((yaml, Some(a)))
            &&& row_answer(next, k) == Ok::<
                (Seq<char>, Option<(Seq<char>, Seq<u8>)>),
                RegistryRefusal,
            >((yaml, Some(b)))
            &&& stored_answer(next, k) == Ok::<
                Option<(Seq<u8>, Option<(Seq<char>, Seq<u8>)>)>,
                RegistryRefusal,
            >(Some((digest, Some(b))))
            &&& published(first, k, digest, other_text, Some(b), PublishVerdict::Unchanged)
                == first
            &&& other != k ==> row_answer(next, other) == row_answer(m, other)
            &&& !m.contains_key(k) ==> row_answer(m, k) == Err::<
                (Seq<char>, Option<(Seq<char>, Seq<u8>)>),
                RegistryRefusal,
            >(RegistryRefusal::NotFound { name: k.1.0, version: k.1.1 })
        }),
{
    law_hex_round_trip(digest);
    law_attestation_round_trip(a);
    law_attestation_round_trip(b);
}

proof fn lemma_neighbours(rows: Seq<(ManifestKey, ManifestModel)>, i: int, j: int)
    requires
        crate::table::in_order::<(String, (String, String)), ManifestModel>(rows),
        0 <= i < j < rows.len(),
    ensures
        <(String, (String, String)) as crate::table::Key>::precedes(rows[i].0, rows[j].0),
{
}

proof fn lemma_names_in(rows: Seq<(ManifestKey, ManifestModel)>, n: int, name: Seq<char>)
    requires
        0 <= n <= rows.len(),
        crate::table::in_order::<(String, (String, String)), ManifestModel>(rows),
        forall|i: int, j: int| 0 <= i < rows.len() && 0 <= j < rows.len() ==> (
        #[trigger] rows[i]).0.0 == (#[trigger] rows[j]).0.0,
    ensures
        names_in(rows, n).contains(name) <==> exists|i: int|
            0 <= i < n && (#[trigger] rows[i]).0.1.0 == name,
        n > 0 ==> names_in(rows, n).len() > 0 && names_in(rows, n).last() == rows[n - 1].0.1.0,
        forall|i: int, j: int|
            0 <= i < j < names_in(rows, n).len() ==> crate::table::text_before(
                #[trigger] names_in(rows, n)[i],
                #[trigger] names_in(rows, n)[j],
            ),
    decreases n,
{
    if n > 0 {
        lemma_names_in(rows, n - 1, name);
        let before = names_in(rows, n - 1);
        let after = names_in(rows, n);
        let x = rows[n - 1].0.1.0;
        if before.len() > 0 && before.last() == x {
            assert(after == before);
            if name == x {
                assert(before[before.len() - 1] == name);
            }
        } else {
            assert(after == before.push(x));
            if n >= 2 {
                lemma_neighbours(rows, n - 2, n - 1);
                assert(rows[n - 2].0.0 == rows[n - 1].0.0);
            } else {
                assert(before.len() == 0);
            }
            if before.contains(name) {
                let i = choose|i: int| 0 <= i < before.len() && before[i] == name;
                assert(after[i] == name);
            }
            if name == x {
                assert(after[before.len() as int] == name);
            }
            if after.contains(name) && name != x {
                let i = choose|i: int| 0 <= i < after.len() && after[i] == name;
                assert(before[i] == name);
            }
            assert forall|i: int, j: int| 0 <= i < j < after.len() implies crate::table::text_before(
                #[trigger] after[i],
                #[trigger] after[j],
            ) by {
                if j == before.len() {
                    <String as crate::table::Key>::lemma_irreflexive(rows[n - 1].0.0);
                    assert(crate::table::text_before(before.last(), x));
                    if i < before.len() - 1 {
                        assert(crate::table::text_before(before[i], before[before.len() - 1]));
                        <String as crate::table::Key>::lemma_transitive(
                            before[i],
                            before.last(),
                            x,
                        );
                    }
                } else {
                    assert(after[i] == before[i] && after[j] == before[j]);
                }
            }
        }
        if exists|i: int| 0 <= i < n && (#[trigger] rows[i]).0.1.0 == name {
            let i = choose|i: int| 0 <= i < n && (#[trigger] rows[i]).0.1.0 == name;
            if i < n - 1 {
                assert(0 <= i < n - 1 && rows[i].0.1.0 == name);
            }
        }
    }
}

/// The names are those that something is published under, and the versions of one
/// are those that are: each once, in order, and a tenant's own.
pub proof fn law_names_and_versions_are_all_there_are(
    m: Map<ManifestKey, ManifestModel>,
    t: Seq<char>,
    name: Seq<char>,
    version: Seq<char>,
)
    requires
        m.dom().finite(),
    ensures
        versions_of(m, t, name).contains(version) <==> m.contains_key((t, (name, version))),
        names_of(m, t).contains(name) <==> exists|v: Seq<char>| #[trigger]
            m.contains_key((t, (name, v))),
        forall|i: int, j: int|
            0 <= i < j < versions_of(m, t, name).len() ==> crate::table::text_before(
                #[trigger] versions_of(m, t, name)[i],
                #[trigger] versions_of(m, t, name)[j],
            ),
        forall|i: int, j: int|
            0 <= i < j < names_of(m, t).len() ==> crate::table::text_before(
                #[trigger] names_of(m, t)[i],
                #[trigger] names_of(m, t)[j],
            ),
{
    let f = named(t, name);
    let rows = chosen::<(String, (String, String)), ManifestModel>(m, f);
    crate::table::lemma_chosen::<(String, (String, String)), ManifestModel>(m, f);
    let all = versions_of(m, t, name);
    if all.contains(version) {
        let i = choose|i: int| 0 <= i < all.len() && all[i] == version;
        assert(f(rows[i]) && m.contains_key(rows[i].0));
        assert(rows[i].0 == (t, (name, version)));
    }
    let k = (t, (name, version));
    if m.contains_key(k) {
        assert(f((k, m[k])));
        assert(crate::table::has_key(rows, k));
        let i = choose|i: int| 0 <= i < rows.len() && (#[trigger] rows[i]).0 == k;
        assert(all[i] == version);
    }
    assert forall|i: int, j: int| 0 <= i < j < all.len() implies crate::table::text_before(
        #[trigger] all[i],
        #[trigger] all[j],
    ) by {
        assert(f(rows[i]) && f(rows[j]));
        assert(<(String, (String, String)) as crate::table::Key>::precedes(rows[i].0, rows[j].0));
        <String as crate::table::Key>::lemma_irreflexive(t);
        <String as crate::table::Key>::lemma_irreflexive(name);
    }
    let g = published_in(t);
    let some = chosen::<(String, (String, String)), ManifestModel>(m, g);
    crate::table::lemma_chosen::<(String, (String, String)), ManifestModel>(m, g);
    assert forall|i: int| 0 <= i < some.len() implies (#[trigger] some[i]).0.0 == t by {
        assert(g(some[i]));
    }
    lemma_names_in(some, some.len() as int, name);
    if names_of(m, t).contains(name) {
        let i = choose|i: int| 0 <= i < some.len() && (#[trigger] some[i]).0.1.0 == name;
        assert(m.contains_key(some[i].0));
        assert(some[i].0 == (t, (name, some[i].0.1.1)));
    }
    if exists|v: Seq<char>| #[trigger] m.contains_key((t, (name, v))) {
        let v = choose|v: Seq<char>| #[trigger] m.contains_key((t, (name, v)));
        let x = (t, (name, v));
        assert(m.contains_key(x) && g((x, m[x])));
        assert(crate::table::has_key(some, x));
        let i = choose|i: int| 0 <= i < some.len() && (#[trigger] some[i]).0 == x;
        assert(some[i].0.1.0 == name);
    }
}

} // verus!
