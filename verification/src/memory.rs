//! Governed memory: what an agent was told, kept by version, with the lineage
//! that lets a poisoned memory be found in everything that absorbed it.
//!
//! Every version is kept under its own number. The current version of an id is
//! what a recall reads; superseded versions stay readable by number until they
//! are erased. Derivation edges are kept per version on both ends, so an
//! erasure reaches exactly the versions that read what is being erased.

use vstd::prelude::*;

use crate::domain::{no_later, on_the_second, Instant};
use crate::error::{Refusal, StoreError};
use crate::table::{
    has_key, in_order, kept, lemma_keys_counted, lemma_keys_finite, text_before, Key, Newest, Pick,
    Table,
};
use crate::text::{dec, join, join3, join5, same};

verus! {

/// How far a memory's origin is trusted.
#[derive(Debug, Clone, Copy, PartialEq, Eq, Structural)]
pub enum Trust {
    Trusted,
    Untrusted,
}

/// Where a level of trust sorts: lower comes first.
pub open spec fn rank_of(trust: Trust) -> u64 {
    match trust {
        Trust::Trusted => 0,
        Trust::Untrusted => 1,
    }
}

/// The sort rank of a level of trust. Written out, so that a new level has to
/// be given a rank rather than inheriting one.
pub fn trust_rank(trust: Trust) -> (r: u64)
    ensures
        r == rank_of(trust),
{
    match trust {
        Trust::Trusted => 0,
        Trust::Untrusted => 1,
    }
}

/// One version of a memory that another was derived from.
#[derive(Debug)]
pub struct MemoryRef {
    pub id: String,
    pub version: u64,
    /// The selection digest the deriving run read.
    pub digest: String,
}

/// What a [`MemoryRef`] names.
#[verifier::ext_equal]
pub struct RefModel {
    pub id: Seq<char>,
    pub version: u64,
    pub digest: Seq<char>,
}

impl View for MemoryRef {
    type V = RefModel;

    open spec fn view(&self) -> RefModel {
        RefModel { id: self.id@, version: self.version, digest: self.digest@ }
    }
}

/// One version of one memory.
#[derive(Debug)]
pub struct MemoryItem {
    pub id: String,
    pub version: u64,
    pub subject: String,
    pub purpose: String,
    pub content: String,
    /// What a reader that selects this version commits to.
    pub digest: String,
    pub trust: Trust,
    pub created_at: Instant,
    /// A hard ceiling on the memory's life.
    pub expires_at: Option<Instant>,
    /// When a newer version took its place.
    pub superseded_at: Option<Instant>,
    /// A sliding window that each access renews.
    pub access_retention_seconds: Option<u64>,
    pub derived_from: Vec<MemoryRef>,
}

/// What a [`MemoryItem`] says.
#[verifier::ext_equal]
pub struct ItemModel {
    pub id: Seq<char>,
    pub version: u64,
    pub subject: Seq<char>,
    pub purpose: Seq<char>,
    pub content: Seq<char>,
    pub digest: Seq<char>,
    pub trust: Trust,
    pub created_at: Instant,
    pub expires_at: Option<Instant>,
    pub superseded_at: Option<Instant>,
    pub access_retention_seconds: Option<u64>,
    pub derived_from: Seq<RefModel>,
}

/// The sources a memory names.
pub open spec fn refs(sources: Seq<MemoryRef>) -> Seq<RefModel> {
    Seq::new(sources.len(), |i: int| sources[i]@)
}

impl View for MemoryItem {
    type V = ItemModel;

    open spec fn view(&self) -> ItemModel {
        ItemModel {
            id: self.id@,
            version: self.version,
            subject: self.subject@,
            purpose: self.purpose@,
            content: self.content@,
            digest: self.digest@,
            trust: self.trust,
            created_at: self.created_at,
            expires_at: self.expires_at,
            superseded_at: self.superseded_at,
            access_retention_seconds: self.access_retention_seconds,
            derived_from: refs(self.derived_from@),
        }
    }
}

impl MemoryItem {
    /// A second copy of the item.
    pub fn twin(&self) -> (c: MemoryItem)
        ensures
            c@ == self@,
    {
        let mut derived_from: Vec<MemoryRef> = Vec::new();
        let mut i: usize = 0;
        while i < self.derived_from.len()
            invariant
                i <= self.derived_from@.len(),
                derived_from@.len() == i,
                forall|j: int|
                    0 <= j < i ==> (#[trigger] derived_from@[j])@ == self.derived_from@[j]@,
            decreases self.derived_from@.len() - i,
        {
            let r = &self.derived_from[i];
            derived_from.push(
                MemoryRef { id: r.id.clone(), version: r.version, digest: r.digest.clone() },
            );
            i = i + 1;
        }
        assert(refs(derived_from@) =~= refs(self.derived_from@));
        MemoryItem {
            id: self.id.clone(),
            version: self.version,
            subject: self.subject.clone(),
            purpose: self.purpose.clone(),
            content: self.content.clone(),
            digest: self.digest.clone(),
            trust: self.trust,
            created_at: self.created_at,
            expires_at: self.expires_at,
            superseded_at: self.superseded_at,
            access_retention_seconds: self.access_retention_seconds,
            derived_from,
        }
    }
}

/// The scope and number of an id's current version.
#[derive(Debug)]
pub struct CurrentRow {
    pub subject: String,
    pub purpose: String,
    /// The second in which it was created.
    pub created_at: i64,
    pub version: u64,
}

/// What a [`CurrentRow`] says.
#[verifier::ext_equal]
pub struct CurrentModel {
    pub subject: Seq<char>,
    pub purpose: Seq<char>,
    pub created_at: i64,
    pub version: u64,
}

impl View for CurrentRow {
    type V = CurrentModel;

    open spec fn view(&self) -> CurrentModel {
        CurrentModel {
            subject: self.subject@,
            purpose: self.purpose@,
            created_at: self.created_at,
            version: self.version,
        }
    }
}

/// A tenant and an id.
pub type Name = (Seq<char>, Seq<char>);

/// A tenant, an id and a version.
pub type VersionName = (Seq<char>, (Seq<char>, u64));

/// A tenant, a subject, a purpose, an instant and an id.
pub type Place = (Seq<char>, (Seq<char>, (Seq<char>, (i64, Seq<char>))));

/// A tenant, the version at one end of an edge, and the version at the other.
pub type Link = (Seq<char>, (Seq<char>, (u64, (Seq<char>, u64))));

/// Everything governed memory holds.
#[verifier::ext_equal]
pub struct MemoryState {
    /// Every version of every memory.
    pub items: Map<VersionName, ItemModel>,
    /// The current version of each id.
    pub current: Map<Name, CurrentModel>,
    /// The current versions by scope, with their version and trust rank.
    pub by_subject: Map<Place, (u64, u64)>,
    /// Derivation edges, from source to derivative.
    pub edges: Map<Link, ()>,
    /// The same edges, from derivative to source.
    pub back_edges: Map<Link, ()>,
    /// Ids whose content was erased.
    pub forgotten: Map<Name, ()>,
    /// Ids under legal hold.
    pub holds: Map<Name, ()>,
    /// When the sliding window of an id closes.
    pub access: Map<Name, i64>,
}

/// The edge that a key of `edges` names, as a key of `back_edges`.
pub open spec fn turned(k: Link) -> Link {
    (k.0, (k.1.1.1.0, (k.1.1.1.1, (k.1.0, k.1.1.0))))
}

/// Where the current version of an id is indexed.
pub open spec fn place(name: Name, row: CurrentModel) -> Place {
    (name.0, (row.subject, (row.purpose, (row.created_at, name.1))))
}

/// The id an index row is about.
pub open spec fn place_name(k: Place) -> Name {
    (k.0, k.1.1.1.1)
}

/// The id a version row is about.
pub open spec fn version_name(k: VersionName) -> Name {
    (k.0, k.1.0)
}

impl MemoryState {
    /// The current version of an id.
    pub open spec fn believed(self, name: Name) -> ItemModel {
        self.items[(name.0, (name.1, self.current[name].version))]
    }

    /// The two edge tables are one index.
    pub open spec fn mirrored(self) -> bool {
        forall|k: Link|
            #![trigger self.edges.contains_key(k)]
            #![trigger self.back_edges.contains_key(turned(k))]
            self.edges.contains_key(k) <==> self.back_edges.contains_key(turned(k))
    }

    /// The scope index holds exactly the current versions.
    pub open spec fn indexed(self) -> bool {
        &&& forall|k: Place| #[trigger]
            self.by_subject.contains_key(k) ==> {
                let name = place_name(k);
                &&& self.current.contains_key(name)
                &&& k == place(name, self.current[name])
                &&& self.by_subject[k] == (
                    self.current[name].version,
                    rank_of(self.believed(name).trust),
                )
            }
        &&& forall|name: Name| #[trigger]
            self.current.contains_key(name) ==> self.by_subject.contains_key(
                place(name, self.current[name]),
            )
    }

    /// A current entry has its version, and every version has a current entry
    /// of its scope that is no older.
    pub open spec fn versioned(self) -> bool {
        &&& forall|name: Name| #[trigger]
            self.current.contains_key(name) ==> {
                &&& self.items.contains_key((name.0, (name.1, self.current[name].version)))
                &&& self.believed(name).created_at.secs == self.current[name].created_at
            }
        &&& forall|k: VersionName| #[trigger]
            self.items.contains_key(k) ==> {
                let name = version_name(k);
                &&& self.current.contains_key(name)
                &&& 1 <= k.1.1 <= self.current[name].version
                &&& self.items[k].id == k.1.0
                &&& self.items[k].version == k.1.1
                &&& self.items[k].subject == self.current[name].subject
                &&& self.items[k].purpose == self.current[name].purpose
            }
    }

    /// Erased ids are not believed; holds and windows belong to believed ids.
    pub open spec fn scoped(self) -> bool {
        &&& forall|name: Name| #[trigger]
            self.forgotten.contains_key(name) ==> !self.current.contains_key(name)
        &&& forall|name: Name| #[trigger]
            self.holds.contains_key(name) ==> self.current.contains_key(name)
        &&& forall|name: Name| #[trigger]
            self.access.contains_key(name) ==> self.current.contains_key(name)
    }

    /// The tables agree with one another.
    pub open spec fn wf(self) -> bool {
        &&& self.mirrored()
        &&& self.indexed()
        &&& self.versioned()
        &&& self.scoped()
    }
}

// ── Remembering ─────────────────────────────────────────────────────────────

pub open spec fn forgotten_text(id: Seq<char>) -> Seq<char> {
    "memory id '"@ + id + "' was forgotten and cannot be reused"@
}

pub open spec fn rescoped_text(id: Seq<char>, row: CurrentModel, s: Seq<char>, p: Seq<char>) -> Seq<
    char,
> {
    "memory id '"@ + id + "' is scoped to subject '"@ + row.subject + "' and purpose '"@
        + row.purpose + "'; use a new id instead of moving it to subject '"@ + s
        + "' and purpose '"@ + p + "'"@
}

pub open spec fn missing_text(id: Seq<char>, source: RefModel) -> Seq<char> {
    "derived memory '"@ + id + "' names missing source '"@ + source.id + ("' version "@
        + crate::text::decimal(source.version as int))
}

pub open spec fn changed_text(id: Seq<char>, source: RefModel) -> Seq<char> {
    "derived memory '"@ + id + "' names a changed source '"@ + source.id + ("' version "@
        + crate::text::decimal(source.version as int))
}

pub open spec fn strayed_text(id: Seq<char>, from: Seq<char>, to: Seq<char>) -> Seq<char> {
    "derived memory '"@ + id + "' must stay in source subject '"@ + from + ("' rather than '"@ + to
        + "'"@)
}

/// Why a source cannot be derived from, if it cannot.
pub open spec fn source_refusal(st: MemoryState, t: Seq<char>, item: ItemModel, i: int) -> Option<
    Refusal,
> {
    let source = item.derived_from[i];
    let k = (t, (source.id, source.version));
    if !st.items.contains_key(k) {
        Some(Refusal::Backend(missing_text(item.id, source)))
    } else if st.items[k].digest != source.digest {
        Some(Refusal::Backend(changed_text(item.id, source)))
    } else if st.items[k].subject != item.subject {
        Some(Refusal::Backend(strayed_text(item.id, st.items[k].subject, item.subject)))
    } else {
        None
    }
}

/// The first refusal among the first `n` sources.
pub open spec fn sources_refusal(st: MemoryState, t: Seq<char>, item: ItemModel, n: int) -> Option<
    Refusal,
>
    decreases n,
{
    if n <= 0 {
        None
    } else {
        match sources_refusal(st, t, item, n - 1) {
            Some(why) => Some(why),
            None => source_refusal(st, t, item, n - 1),
        }
    }
}

/// Why an id cannot take an item, if it cannot: it was forgotten, or belongs to
/// another scope.
pub open spec fn scope_refusal(st: MemoryState, t: Seq<char>, item: ItemModel) -> Option<Refusal> {
    let name = (t, item.id);
    if !st.current.contains_key(name) && st.forgotten.contains_key(name) {
        Some(Refusal::Backend(forgotten_text(item.id)))
    } else if st.current.contains_key(name) && (st.current[name].subject != item.subject
        || st.current[name].purpose != item.purpose) {
        Some(
            Refusal::Backend(
                rescoped_text(item.id, st.current[name], item.subject, item.purpose),
            ),
        )
    } else {
        None
    }
}

/// Why an item cannot be remembered, if it cannot.
pub open spec fn remember_refusal(st: MemoryState, t: Seq<char>, item: ItemModel) -> Option<
    Refusal,
> {
    let name = (t, item.id);
    match scope_refusal(st, t, item) {
        Some(why) => Some(why),
        None => match sources_refusal(st, t, item, item.derived_from.len() as int) {
            Some(why) => Some(why),
            None => if st.current.contains_key(name) && st.current[name].version == u64::MAX {
                Some(Refusal::Backend("memory version overflow"@))
            } else {
                None
            },
        },
    }
}

/// The version the next write of an id gets.
pub open spec fn next_version(st: MemoryState, name: Name) -> u64 {
    if st.current.contains_key(name) {
        (st.current[name].version + 1) as u64
    } else {
        1
    }
}

/// The item as it is stored.
pub open spec fn stored(item: ItemModel, version: u64) -> ItemModel {
    ItemModel { version, superseded_at: None, ..item }
}

/// The edge from a source to a version that read it.
pub open spec fn link(t: Seq<char>, source: RefModel, id: Seq<char>, version: u64) -> Link {
    (t, (source.id, (source.version, (id, version))))
}

/// The edges with those of the first `n` sources added.
pub open spec fn linked(
    edges: Map<Link, ()>,
    t: Seq<char>,
    sources: Seq<RefModel>,
    id: Seq<char>,
    version: u64,
    n: int,
) -> Map<Link, ()>
    decreases n,
{
    if n <= 0 {
        edges
    } else {
        linked(edges, t, sources, id, version, n - 1).insert(
            link(t, sources[n - 1], id, version),
            (),
        )
    }
}

/// The reverse edges with those of the first `n` sources added.
pub open spec fn back_linked(
    edges: Map<Link, ()>,
    t: Seq<char>,
    sources: Seq<RefModel>,
    id: Seq<char>,
    version: u64,
    n: int,
) -> Map<Link, ()>
    decreases n,
{
    if n <= 0 {
        edges
    } else {
        back_linked(edges, t, sources, id, version, n - 1).insert(
            turned(link(t, sources[n - 1], id, version)),
            (),
        )
    }
}

/// When a window opened at `at` closes: neither the window nor the sum passes
/// the last instant.
pub open spec fn later(at: i64, window: u64) -> i64 {
    let span = if window > i64::MAX {
        i64::MAX as int
    } else {
        window as int
    };
    if at + span > i64::MAX {
        i64::MAX
    } else {
        (at + span) as i64
    }
}

/// The windows once an access at `at` has renewed the one of `name`.
pub open spec fn slid(access: Map<Name, i64>, name: Name, at: i64, window: u64) -> Map<Name, i64> {
    if access.contains_key(name) && access[name] >= later(at, window) {
        access
    } else {
        access.insert(name, later(at, window))
    }
}

/// The state once an item is remembered.
pub open spec fn remembered(st: MemoryState, t: Seq<char>, item: ItemModel) -> MemoryState {
    let name = (t, item.id);
    let version = next_version(st, name);
    let now = CurrentModel {
        subject: item.subject,
        purpose: item.purpose,
        created_at: item.created_at.secs,
        version,
    };
    let old_key = (t, (item.id, st.current[name].version));
    let known = st.current.contains_key(name);
    let items = if known {
        st.items.insert(
            old_key,
            ItemModel { superseded_at: Some(item.created_at), ..st.items[old_key] },
        )
    } else {
        st.items
    };
    let places = if known {
        st.by_subject.remove(place(name, st.current[name]))
    } else {
        st.by_subject
    };
    let n = item.derived_from.len() as int;
    MemoryState {
        items: items.insert((t, (item.id, version)), stored(item, version)),
        current: st.current.insert(name, now),
        by_subject: places.insert(place(name, now), (version, rank_of(item.trust))),
        edges: linked(st.edges, t, item.derived_from, item.id, version, n),
        back_edges: back_linked(st.back_edges, t, item.derived_from, item.id, version, n),
        forgotten: st.forgotten,
        holds: st.holds,
        access: match item.access_retention_seconds {
            Some(window) => slid(st.access, name, item.created_at.secs, window),
            None => st.access.remove(name),
        },
    }
}

/// The held id that a trace meets first is the one that refuses the cascade.
proof fn lemma_first_held(
    st: MemoryState,
    t: Seq<char>,
    root: Seq<char>,
    trace: &Trace,
    m: Seq<char>,
)
    requires
        trace.exact(st, t, root),
        st.holds.contains_key((t, m)),
        if trace.whole@.contains_key(m) {
            forall|id: Seq<char>| #[trigger]
                trace.whole@.contains_key(id) && st.holds.contains_key((t, id)) ==> !text_before(
                    id,
                    m,
                )
        } else {
            &&& exists|v: u64| #[trigger] trace.alone@.contains_key((m, v))
            &&& forall|id: Seq<char>| #[trigger]
                trace.whole@.contains_key(id) ==> !st.holds.contains_key((t, id))
            &&& forall|p: (Seq<char>, u64)| #[trigger]
                trace.alone@.contains_key(p) && st.holds.contains_key((t, p.0)) ==> !text_before(
                    p.0,
                    m,
                )
        },
    ensures
        first_held(st, t, root, m),
        cascade_held(st, t, root),
{
    if trace.whole@.contains_key(m) {
        assert(doomed(st, t, root, m, 0));
    } else {
        let v = choose|v: u64| #[trigger] trace.alone@.contains_key((m, v));
        assert(doomed(st, t, root, m, v));
    }
    assert(touched(st, t, root, m));
    assert forall|x: Seq<char>|
        st.holds.contains_key((t, x)) && #[trigger] reached(
            st,
            t,
            root,
            Node::Whole(x),
        ) implies reached(st, t, root, Node::Whole(m)) && !text_before(x, m) by {
        assert(trace.whole@.contains_key(x));
    }
    if !reached(st, t, root, Node::Whole(m)) {
        assert forall|x: Seq<char>|
            st.holds.contains_key((t, x)) && #[trigger] touched(
                st,
                t,
                root,
                x,
            ) implies !text_before(x, m) by {
            let v = choose|v: u64| #[trigger] doomed(st, t, root, x, v);
            assert(trace.dooms(x, v));
            if !trace.whole@.contains_key(x) {
                assert(trace.alone@.contains_key((x, v)));
            }
        }
    }
}

/// Whatever absorbed something reached is reached.
proof fn lemma_pushed_reached(st: MemoryState, t: Seq<char>, root: Seq<char>, a: Node)
    requires
        reached(st, t, root, a),
    ensures
        forall|id: Seq<char>, v: u64| #[trigger]
            absorbed(st, t, a, id, v) ==> reached(st, t, root, target(st, t, id, v)),
{
    assert forall|id: Seq<char>, v: u64| #[trigger] absorbed(st, t, a, id, v) implies reached(
        st,
        t,
        root,
        target(st, t, id, v),
    ) by {
        assert(steps(st, t, a, target(st, t, id, v)));
        lemma_reached_step(st, t, root, a, target(st, t, id, v));
    }
}

/// What a write has done before it adds its edges, its window and its item.
spec fn before_links(st: MemoryState, t: Seq<char>, item: ItemModel) -> MemoryState {
    let after = remembered(st, t, item);
    let old_key = (t, (item.id, st.current[(t, item.id)].version));
    MemoryState {
        items: if st.current.contains_key((t, item.id)) {
            st.items.insert(
                old_key,
                ItemModel { superseded_at: Some(item.created_at), ..st.items[old_key] },
            )
        } else {
            st.items
        },
        access: st.access,
        ..after
    }
}

proof fn lemma_first_refusal(st: MemoryState, t: Seq<char>, item: ItemModel, i: int, n: int)
    requires
        0 <= i < n,
        sources_refusal(st, t, item, i) is None,
        source_refusal(st, t, item, i) is Some,
    ensures
        sources_refusal(st, t, item, n) == source_refusal(st, t, item, i),
    decreases n,
{
    if n > i + 1 {
        lemma_first_refusal(st, t, item, i, n - 1);
    }
}

proof fn lemma_linked_mirror(
    st: MemoryState,
    t: Seq<char>,
    sources: Seq<RefModel>,
    id: Seq<char>,
    version: u64,
    n: int,
)
    requires
        st.mirrored(),
        0 <= n <= sources.len(),
    ensures
        forall|k: Link|
            #![trigger linked(st.edges, t, sources, id, version, n).contains_key(k)]
            #![trigger back_linked(st.back_edges, t, sources, id, version, n).contains_key(turned(k))]
            linked(st.edges, t, sources, id, version, n).contains_key(k) <==> back_linked(
                st.back_edges,
                t,
                sources,
                id,
                version,
                n,
            ).contains_key(turned(k)),
    decreases n,
{
    if n > 0 {
        lemma_linked_mirror(st, t, sources, id, version, n - 1);
        let a = linked(st.edges, t, sources, id, version, n - 1);
        let b = back_linked(st.back_edges, t, sources, id, version, n - 1);
        let l = link(t, sources[n - 1], id, version);
        assert forall|k: Link|
            a.insert(l, ()).contains_key(k) <==> b.insert(turned(l), ()).contains_key(
                turned(k),
            ) by {
            assert(a.contains_key(k) <==> b.contains_key(turned(k)));
            assert(turned(turned(k)) == k);
            assert(turned(turned(l)) == l);
        }
    }
}

/// Remembering keeps the tables in agreement.
pub proof fn lemma_remembered_wf(st: MemoryState, t: Seq<char>, item: ItemModel)
    requires
        st.wf(),
        remember_refusal(st, t, item) is None,
    ensures
        remembered(st, t, item).wf(),
{
    let name = (t, item.id);
    let st2 = remembered(st, t, item);
    lemma_linked_mirror(
        st,
        t,
        item.derived_from,
        item.id,
        next_version(st, name),
        item.derived_from.len() as int,
    );
    assert(st2.mirrored());
    assert(st2.versioned());
    assert(st2.scoped());
    assert forall|k: Place| #[trigger] st2.by_subject.contains_key(k) implies {
        let nm = place_name(k);
        &&& st2.current.contains_key(nm)
        &&& k == place(nm, st2.current[nm])
        &&& st2.by_subject[k] == (st2.current[nm].version, rank_of(st2.believed(nm).trust))
    } by {
        if place_name(k) != name {
            assert(st.by_subject.contains_key(k));
        } else if k != place(name, st2.current[name]) {
            assert(st.by_subject.contains_key(k));
            assert(k == place(name, st.current[name]));
        }
    }
    assert forall|nm: Name| #[trigger] st2.current.contains_key(nm) implies st2.by_subject.contains_key(
        place(nm, st2.current[nm]),
    ) by {
        if nm != name {
            assert(st.current.contains_key(nm));
            assert(place_name(place(nm, st.current[nm])) == nm);
        }
    }
}

// ── Erasing ─────────────────────────────────────────────────────────────────

pub open spec fn held_text(id: Seq<char>) -> Seq<char> {
    "memory '"@ + id + "' is under legal hold"@
}

/// The state once every version of these ids is gone. Lineage stays: a later
/// cascade from further upstream routes through what was erased.
pub open spec fn erased(st: MemoryState, t: Seq<char>, ids: Set<Seq<char>>) -> MemoryState {
    MemoryState {
        items: Map::new(
            |k: VersionName| st.items.contains_key(k) && !(k.0 == t && ids.contains(k.1.0)),
            |k: VersionName| st.items[k],
        ),
        current: Map::new(
            |k: Name| st.current.contains_key(k) && !(k.0 == t && ids.contains(k.1)),
            |k: Name| st.current[k],
        ),
        by_subject: Map::new(
            |k: Place|
                st.by_subject.contains_key(k) && !(k.0 == t && ids.contains(k.1.1.1.1)),
            |k: Place| st.by_subject[k],
        ),
        forgotten: Map::new(
            |k: Name| st.forgotten.contains_key(k) || (k.0 == t && ids.contains(k.1)),
            |k: Name| (),
        ),
        access: Map::new(
            |k: Name| st.access.contains_key(k) && !(k.0 == t && ids.contains(k.1)),
            |k: Name| st.access[k],
        ),
        ..st
    }
}

/// Why a memory cannot be forgotten, if it cannot.
pub open spec fn forget_refusal(st: MemoryState, t: Seq<char>, id: Seq<char>) -> Option<Refusal> {
    if st.holds.contains_key((t, id)) {
        Some(Refusal::Backend(held_text(id)))
    } else {
        None
    }
}

/// The state once a memory is forgotten. One that is not there changes nothing.
pub open spec fn forgotten_one(st: MemoryState, t: Seq<char>, id: Seq<char>) -> MemoryState {
    if st.current.contains_key((t, id)) {
        erased(st, t, set![id])
    } else {
        st
    }
}

/// Why a memory cannot be held or let go, if it cannot.
pub open spec fn hold_refusal(st: MemoryState, t: Seq<char>, id: Seq<char>, held: bool) -> Option<
    Refusal,
> {
    if held && !st.current.contains_key((t, id)) {
        Some(Refusal::Backend("cannot hold missing memory '"@ + id + "'"@))
    } else {
        None
    }
}

/// Whether a memory is under legal hold.
pub open spec fn is_held(st: MemoryState, t: Seq<char>, id: Seq<char>) -> bool {
    st.holds.contains_key((t, id))
}

/// The state once a memory is held or let go.
pub open spec fn hold_set(st: MemoryState, t: Seq<char>, id: Seq<char>, held: bool) -> MemoryState {
    MemoryState {
        holds: if held {
            st.holds.insert((t, id), ())
        } else {
            st.holds.remove((t, id))
        },
        ..st
    }
}

/// Erasing ids that are not held keeps the tables in agreement.
pub proof fn lemma_erased_wf(st: MemoryState, t: Seq<char>, ids: Set<Seq<char>>)
    requires
        st.wf(),
        forall|id: Seq<char>| #[trigger] ids.contains(id) ==> !st.holds.contains_key((t, id)),
    ensures
        erased(st, t, ids).wf(),
{
    let st2 = erased(st, t, ids);
    assert(st2.edges == st.edges && st2.back_edges == st.back_edges);
    assert(st2.mirrored()) by {
        assert forall|k: Link|
            #![trigger st2.edges.contains_key(k)]
            #![trigger st2.back_edges.contains_key(turned(k))]
            st2.edges.contains_key(k) <==> st2.back_edges.contains_key(turned(k)) by {
            assert(st.edges.contains_key(k) <==> st.back_edges.contains_key(turned(k)));
        }
    }
    assert forall|k: Place| #[trigger] st2.by_subject.contains_key(k) implies {
        let nm = place_name(k);
        &&& st2.current.contains_key(nm)
        &&& k == place(nm, st2.current[nm])
        &&& st2.by_subject[k] == (st2.current[nm].version, rank_of(st2.believed(nm).trust))
    } by {
        assert(st.by_subject.contains_key(k));
        let nm = place_name(k);
        assert(st.current.contains_key(nm));
        assert(st.items.contains_key((nm.0, (nm.1, st.current[nm].version))));
    }
    assert forall|nm: Name| #[trigger] st2.current.contains_key(nm) implies st2.by_subject.contains_key(
        place(nm, st2.current[nm]),
    ) by {
        assert(st.current.contains_key(nm));
    }
    assert(st2.indexed());
    assert forall|nm: Name| #[trigger] st2.current.contains_key(nm) implies {
        &&& st2.items.contains_key((nm.0, (nm.1, st2.current[nm].version)))
        &&& st2.believed(nm).created_at.secs == st2.current[nm].created_at
    } by {
        assert(st.current.contains_key(nm));
    }
    assert forall|k: VersionName| #[trigger] st2.items.contains_key(k) implies {
        let name = version_name(k);
        &&& st2.current.contains_key(name)
        &&& 1 <= k.1.1 <= st2.current[name].version
        &&& st2.items[k].id == k.1.0
        &&& st2.items[k].version == k.1.1
        &&& st2.items[k].subject == st2.current[name].subject
        &&& st2.items[k].purpose == st2.current[name].purpose
    } by {
        assert(st.items.contains_key(k));
    }
    assert(st2.versioned());
    assert(st2.scoped());
}

/// What a cascade reaches: a whole id, or one superseded version of an id.
pub enum Node {
    Whole(Seq<char>),
    Version(Seq<char>, u64),
}

/// What falls when a version is reached: the whole id if the version is what is
/// believed now, and that version alone otherwise.
pub open spec fn target(st: MemoryState, t: Seq<char>, id: Seq<char>, v: u64) -> Node {
    if st.current.contains_key((t, id)) && st.current[(t, id)].version == v {
        Node::Whole(id)
    } else {
        Node::Version(id, v)
    }
}

/// Whether a version is part of a node.
pub open spec fn covers(node: Node, id: Seq<char>, v: u64) -> bool {
    match node {
        Node::Whole(i) => i == id,
        Node::Version(i, w) => i == id && w == v,
    }
}

/// Whether a version read something that is part of a node.
pub open spec fn absorbed(st: MemoryState, t: Seq<char>, from: Node, id: Seq<char>, v: u64) -> bool {
    exists|s: Seq<char>, sv: u64|
        covers(from, s, sv) && #[trigger] st.edges.contains_key((t, (s, (sv, (id, v)))))
}

/// Whether a cascade goes from one node to another.
pub open spec fn steps(st: MemoryState, t: Seq<char>, a: Node, b: Node) -> bool {
    exists|id: Seq<char>, v: u64| #[trigger]
        absorbed(st, t, a, id, v) && b == target(st, t, id, v)
}

/// Whether a cascade from `root` reaches a node in at most `n` steps.
pub open spec fn within(st: MemoryState, t: Seq<char>, root: Seq<char>, n: nat, b: Node) -> bool
    decreases n,
{
    if n == 0 {
        b == Node::Whole(root)
    } else {
        within(st, t, root, (n - 1) as nat, b) || exists|a: Node|
            #![trigger steps(st, t, a, b)]
            within(st, t, root, (n - 1) as nat, a) && steps(st, t, a, b)
    }
}

/// Whether a cascade from `root` reaches a node.
pub open spec fn reached(st: MemoryState, t: Seq<char>, root: Seq<char>, b: Node) -> bool {
    exists|n: nat| within(st, t, root, n, b)
}

/// Whether a cascade from `root` erases a version.
pub open spec fn doomed(
    st: MemoryState,
    t: Seq<char>,
    root: Seq<char>,
    id: Seq<char>,
    v: u64,
) -> bool {
    reached(st, t, root, Node::Whole(id)) || reached(st, t, root, Node::Version(id, v))
}

/// The ids a cascade from `root` erases whole.
pub open spec fn fallen(st: MemoryState, t: Seq<char>, root: Seq<char>) -> Set<Seq<char>> {
    Set::new(|id: Seq<char>| reached(st, t, root, Node::Whole(id)))
}

/// Whether a cascade from `root` erases some version of an id.
pub open spec fn touched(st: MemoryState, t: Seq<char>, root: Seq<char>, id: Seq<char>) -> bool {
    exists|v: u64| #[trigger] doomed(st, t, root, id, v)
}

/// The ids a cascade from `root` takes content from.
pub open spec fn emptied(st: MemoryState, t: Seq<char>, root: Seq<char>) -> Set<Seq<char>> {
    Set::new(
        |id: Seq<char>|
            exists|v: u64|
                #![trigger st.items.contains_key((t, (id, v)))]
                st.items.contains_key((t, (id, v))) && doomed(st, t, root, id, v),
    )
}

/// Whether an edge touches what a cascade from `root` erases.
pub open spec fn severed(st: MemoryState, t: Seq<char>, root: Seq<char>, k: Link) -> bool {
    k.0 == t && (doomed(st, t, root, k.1.0, k.1.1.0) || doomed(
        st,
        t,
        root,
        k.1.1.1.0,
        k.1.1.1.1,
    ))
}

/// The state once a cascade from `root` has run.
pub open spec fn cascaded(st: MemoryState, t: Seq<char>, root: Seq<char>) -> MemoryState {
    let gone = erased(st, t, fallen(st, t, root));
    MemoryState {
        items: Map::new(
            |k: VersionName|
                gone.items.contains_key(k) && !(k.0 == t && reached(
                    st,
                    t,
                    root,
                    Node::Version(k.1.0, k.1.1),
                )),
            |k: VersionName| st.items[k],
        ),
        edges: Map::new(
            |k: Link| st.edges.contains_key(k) && !severed(st, t, root, k),
            |k: Link| (),
        ),
        back_edges: Map::new(
            |k: Link| st.back_edges.contains_key(k) && !severed(st, t, root, turned(k)),
            |k: Link| (),
        ),
        ..gone
    }
}

/// Whether a hold protects something a cascade from `root` would erase.
pub open spec fn cascade_held(st: MemoryState, t: Seq<char>, root: Seq<char>) -> bool {
    exists|m: Seq<char>| #[trigger] touched(st, t, root, m) && st.holds.contains_key((t, m))
}

/// Whether `m` is the held id that refuses a cascade from `root`: the first
/// among those that would fall whole, or the first of all where none of those
/// is held.
pub open spec fn first_held(st: MemoryState, t: Seq<char>, root: Seq<char>, m: Seq<char>) -> bool {
    &&& touched(st, t, root, m)
    &&& st.holds.contains_key((t, m))
    &&& forall|x: Seq<char>|
        st.holds.contains_key((t, x)) && #[trigger] reached(st, t, root, Node::Whole(x))
            ==> reached(st, t, root, Node::Whole(m)) && !text_before(x, m)
    &&& !reached(st, t, root, Node::Whole(m)) ==> forall|x: Seq<char>|
        st.holds.contains_key((t, x)) && #[trigger] touched(st, t, root, x) ==> !text_before(x, m)
}

/// A believed version is never reached on its own: its whole id is.
pub proof fn lemma_version_is_superseded(
    st: MemoryState,
    t: Seq<char>,
    root: Seq<char>,
    n: nat,
    id: Seq<char>,
    v: u64,
)
    requires
        within(st, t, root, n, Node::Version(id, v)),
    ensures
        !(st.current.contains_key((t, id)) && st.current[(t, id)].version == v),
    decreases n,
{
    if n > 0 {
        if within(st, t, root, (n - 1) as nat, Node::Version(id, v)) {
            lemma_version_is_superseded(st, t, root, (n - 1) as nat, id, v);
        }
    }
}

/// A cascade that meets no hold keeps the tables in agreement.
pub proof fn lemma_cascaded_wf(st: MemoryState, t: Seq<char>, root: Seq<char>)
    requires
        st.wf(),
        forall|id: Seq<char>|
            st.holds.contains_key((t, id)) ==> !#[trigger] touched(st, t, root, id),
    ensures
        cascaded(st, t, root).wf(),
{
    let ids = fallen(st, t, root);
    assert forall|id: Seq<char>| #[trigger] ids.contains(id) implies !st.holds.contains_key(
        (t, id),
    ) by {
        assert(doomed(st, t, root, id, 0));
        assert(touched(st, t, root, id));
    }
    lemma_erased_wf(st, t, ids);
    let gone = erased(st, t, ids);
    let st2 = cascaded(st, t, root);
    assert forall|k: Link|
        #![trigger st2.edges.contains_key(k)]
        #![trigger st2.back_edges.contains_key(turned(k))]
        st2.edges.contains_key(k) <==> st2.back_edges.contains_key(turned(k)) by {
        assert(turned(turned(k)) == k);
        assert(st.edges.contains_key(k) <==> st.back_edges.contains_key(turned(k)));
    }
    assert forall|nm: Name| #[trigger] st2.current.contains_key(nm) implies st2.items.contains_key(
        (nm.0, (nm.1, st2.current[nm].version)),
    ) && st2.believed(nm) == gone.believed(nm) by {
        let k = (nm.0, (nm.1, gone.current[nm].version));
        assert(gone.current.contains_key(nm));
        assert(gone.items.contains_key(k));
        if nm.0 == t && reached(st, t, root, Node::Version(k.1.0, k.1.1)) {
            let n = choose|n: nat| within(st, t, root, n, Node::Version(k.1.0, k.1.1));
            lemma_version_is_superseded(st, t, root, n, k.1.0, k.1.1);
        }
    }
    assert(st2.versioned()) by {
        assert forall|k: VersionName| #[trigger] st2.items.contains_key(k) implies {
            let name = version_name(k);
            &&& st2.current.contains_key(name)
            &&& 1 <= k.1.1 <= st2.current[name].version
            &&& st2.items[k].id == k.1.0
            &&& st2.items[k].version == k.1.1
            &&& st2.items[k].subject == st2.current[name].subject
            &&& st2.items[k].purpose == st2.current[name].purpose
        } by {
            assert(gone.items.contains_key(k));
        }
        assert forall|nm: Name| #[trigger] st2.current.contains_key(nm) implies st2.believed(
            nm,
        ).created_at.secs == st2.current[nm].created_at by {
            assert(gone.current.contains_key(nm));
        }
    }
    assert(st2.indexed()) by {
        assert forall|k: Place| #[trigger] st2.by_subject.contains_key(k) implies {
            let nm = place_name(k);
            &&& st2.current.contains_key(nm)
            &&& k == place(nm, st2.current[nm])
            &&& st2.by_subject[k] == (st2.current[nm].version, rank_of(st2.believed(nm).trust))
        } by {
            assert(gone.by_subject.contains_key(k));
            assert(gone.current.contains_key(place_name(k)));
        }
        assert forall|nm: Name| #[trigger]
            st2.current.contains_key(nm) implies st2.by_subject.contains_key(
            place(nm, st2.current[nm]),
        ) by {
            assert(gone.current.contains_key(nm));
        }
    }
}

/// The ids believed about a subject.
pub open spec fn subject_set(st: MemoryState, t: Seq<char>, subject: Seq<char>) -> Set<Seq<char>> {
    Set::new(
        |id: Seq<char>|
            st.current.contains_key((t, id)) && st.current[(t, id)].subject == subject,
    )
}

/// The state once a subject is forgotten. Edges into its memories go with
/// them; edges out of them stay.
pub open spec fn subject_forgotten(
    st: MemoryState,
    t: Seq<char>,
    subject: Seq<char>,
) -> MemoryState {
    let ids = subject_set(st, t, subject);
    MemoryState {
        edges: Map::new(
            |k: Link| st.edges.contains_key(k) && !(k.0 == t && ids.contains(k.1.1.1.0)),
            |k: Link| (),
        ),
        back_edges: Map::new(
            |k: Link| st.back_edges.contains_key(k) && !(k.0 == t && ids.contains(k.1.0)),
            |k: Link| (),
        ),
        ..erased(st, t, ids)
    }
}

/// Whether `m` is the held memory that keeps a subject from being forgotten:
/// the first one in the scope index.
pub open spec fn first_held_of_subject(
    st: MemoryState,
    t: Seq<char>,
    subject: Seq<char>,
    m: Seq<char>,
) -> bool {
    &&& subject_set(st, t, subject).contains(m)
    &&& st.holds.contains_key((t, m))
    &&& forall|x: Seq<char>| #[trigger]
        subject_set(st, t, subject).contains(x) && st.holds.contains_key((t, x))
            ==> !PlaceKey::precedes(
            place((t, x), st.current[(t, x)]),
            place((t, m), st.current[(t, m)]),
        )
}

/// Forgetting a subject that holds nothing back keeps the tables in agreement.
pub proof fn lemma_subject_forgotten_wf(st: MemoryState, t: Seq<char>, subject: Seq<char>)
    requires
        st.wf(),
        forall|id: Seq<char>| #[trigger]
            subject_set(st, t, subject).contains(id) ==> !st.holds.contains_key((t, id)),
    ensures
        subject_forgotten(st, t, subject).wf(),
{
    let gone = erased(st, t, subject_set(st, t, subject));
    let st2 = subject_forgotten(st, t, subject);
    lemma_erased_wf(st, t, subject_set(st, t, subject));
    assert forall|k: Link|
        #![trigger st2.edges.contains_key(k)]
        #![trigger st2.back_edges.contains_key(turned(k))]
        st2.edges.contains_key(k) <==> st2.back_edges.contains_key(turned(k)) by {
        assert(st.edges.contains_key(k) <==> st.back_edges.contains_key(turned(k)));
    }
    assert(st2.indexed()) by {
        assert(forall|nm: Name| st2.believed(nm) == gone.believed(nm));
        assert(gone.indexed());
    }
    assert(st2.versioned()) by {
        assert(forall|nm: Name| st2.believed(nm) == gone.believed(nm));
        assert(gone.versioned());
    }
}

/// When a believed memory ends: the earlier of its ceiling and its window. A
/// window closes on a second.
pub open spec fn life_end(st: MemoryState, name: Name) -> Option<Instant> {
    let window = on_the_second(st.access[name]);
    match st.believed(name).expires_at {
        Some(ceiling) => if st.access.contains_key(name) && no_later(window, ceiling) {
            Some(window)
        } else {
            Some(ceiling)
        },
        None => if st.access.contains_key(name) {
            Some(window)
        } else {
            None
        },
    }
}

/// Whether a believed memory has ended by `at`.
pub open spec fn ended(st: MemoryState, name: Name, at: Instant) -> bool {
    life_end(st, name) matches Some(e) && no_later(e, at)
}

/// The ids whose life has ended and that no hold protects.
pub open spec fn expired_set(st: MemoryState, t: Seq<char>, at: Instant) -> Set<Seq<char>> {
    Set::new(
        |id: Seq<char>|
            st.current.contains_key((t, id)) && !st.holds.contains_key((t, id)) && ended(
                st,
                (t, id),
                at,
            ),
    )
}

/// A question to memory.
#[derive(Debug)]
pub struct Recall {
    pub subject: String,
    pub purpose: Option<String>,
    pub limit: usize,
    pub as_of: Option<Instant>,
}

/// What a list of items says.
pub open spec fn items_of(items: Seq<MemoryItem>) -> Seq<ItemModel> {
    Seq::new(items.len(), |i: int| items[i]@)
}

/// Whether a recall may answer with a memory.
pub open spec fn wanted(st: MemoryState, t: Seq<char>, q: Recall, id: Seq<char>) -> bool {
    &&& candidate(st, t, q, id)
    &&& q.as_of matches Some(at) ==> !ended(st, (t, id), at)
}

/// A version of a memory, where it is kept.
pub open spec fn version_of(st: MemoryState, t: Seq<char>, id: Seq<char>, version: u64) -> Option<
    ItemModel,
> {
    if st.items.contains_key((t, (id, version))) {
        Some(st.items[(t, (id, version))])
    } else {
        None
    }
}

/// Whether a memory is in the scope of a recall.
pub open spec fn candidate(st: MemoryState, t: Seq<char>, q: Recall, id: Seq<char>) -> bool {
    &&& st.current.contains_key((t, id))
    &&& st.current[(t, id)].subject == q.subject@
    &&& q.purpose matches Some(p) ==> st.current[(t, id)].purpose == p@
}

/// Where a memory stands in a recall: most trusted first, newest first within
/// a level of trust, and by id among equals.
pub open spec fn standing(st: MemoryState, t: Seq<char>, id: Seq<char>) -> (u64, (i64, Seq<char>)) {
    (rank_of(st.believed((t, id)).trust), (st.current[(t, id)].created_at, id))
}

/// The order of a recall's answers.
pub open spec fn better(a: (u64, (i64, Seq<char>)), b: (u64, (i64, Seq<char>))) -> bool {
    <(u64, (Newest, String))>::precedes(a, b)
}

/// Whether these items are what a recall answers: the best of the wanted
/// memories, in order, cut at the limit.
pub open spec fn recalled(
    st: MemoryState,
    t: Seq<char>,
    q: Recall,
    out: Seq<ItemModel>,
) -> bool {
    &&& out.len() <= q.limit
    &&& forall|i: int|
        0 <= i < out.len() ==> wanted(st, t, q, (#[trigger] out[i]).id) && out[i] == st.believed(
            (t, out[i].id),
        )
    &&& forall|i: int, j: int|
        0 <= i < j < out.len() ==> better(
            standing(st, t, (#[trigger] out[i]).id),
            standing(st, t, (#[trigger] out[j]).id),
        )
    &&& forall|id: Seq<char>| #[trigger]
        wanted(st, t, q, id) ==> (exists|i: int|
            0 <= i < out.len() && (#[trigger] out[i]).id == id) || (out.len() == q.limit && forall|
            i: int,
        |
            0 <= i < out.len() ==> better(
                standing(st, t, (#[trigger] out[i]).id),
                standing(st, t, id),
            ))
}

/// Whether a version that is believed now read some version of `source`.
pub open spec fn derives(st: MemoryState, t: Seq<char>, source: Seq<char>, id: Seq<char>) -> bool {
    st.current.contains_key((t, id)) && absorbed(
        st,
        t,
        Node::Whole(source),
        id,
        st.current[(t, id)].version,
    )
}

/// Whether `k` is the first edge by which `id` derives from `source`.
pub open spec fn first_edge(
    st: MemoryState,
    t: Seq<char>,
    source: Seq<char>,
    id: Seq<char>,
    k: Link,
) -> bool {
    &&& k.0 == t
    &&& k.1.0 == source
    &&& k.1.1.1 == (id, st.current[(t, id)].version)
    &&& st.edges.contains_key(k)
    &&& forall|sv: u64|
        #[trigger] st.edges.contains_key(
            (t, (source, (sv, (id, st.current[(t, id)].version)))),
        ) ==> k.1.1.0 <= sv
}

/// Whether these items are the live derivatives of `source`, each once, in the
/// order of their first edges.
pub open spec fn derivation(
    st: MemoryState,
    t: Seq<char>,
    source: Seq<char>,
    out: Seq<ItemModel>,
    edges: Seq<Link>,
) -> bool {
    &&& edges.len() == out.len()
    &&& forall|i: int|
        0 <= i < out.len() ==> derives(st, t, source, (#[trigger] out[i]).id) && out[i]
            == st.believed((t, out[i].id)) && first_edge(st, t, source, out[i].id, edges[i])
    &&& forall|i: int, j: int|
        0 <= i < j < out.len() ==> LinkKey::precedes(
            #[trigger] edges[i],
            #[trigger] edges[j],
        )
    &&& forall|id: Seq<char>| #[trigger]
        derives(st, t, source, id) ==> exists|i: int|
            0 <= i < out.len() && (#[trigger] out[i]).id == id
}

/// The key of the scope index.
pub type PlaceKey = (String, (String, (String, (Newest, String))));

/// The key of an edge.
pub type LinkKey = (String, (String, (u64, (String, u64))));

/// Whether an access to one of these ids renews the window of a memory.
pub open spec fn renews(st: MemoryState, t: Seq<char>, ids: Seq<String>, n: int, k: Name) -> bool {
    &&& k.0 == t
    &&& exists|i: int| 0 <= i < n && (#[trigger] ids[i])@ == k.1
    &&& st.current.contains_key(k)
    &&& st.believed(k).access_retention_seconds is Some
}

/// The windows once the first `n` of these ids are touched at `at`.
pub open spec fn touched_windows(
    st: MemoryState,
    t: Seq<char>,
    ids: Seq<String>,
    n: int,
    at: i64,
) -> Map<Name, i64> {
    Map::new(
        |k: Name| st.access.contains_key(k) || renews(st, t, ids, n, k),
        |k: Name|
            {
                let end = later(at, st.believed(k).access_retention_seconds->0);
                if renews(st, t, ids, n, k) && !(st.access.contains_key(k) && st.access[k]
                    >= end) {
                    end
                } else {
                    st.access[k]
                }
            },
    )
}

// ── Laws ────────────────────────────────────────────────────────────────────

/// An erased id is gone for good: none of its versions is readable, and no
/// write can bring it back.
pub proof fn law_forgotten_is_final(st: MemoryState, t: Seq<char>, item: ItemModel, v: u64)
    requires
        st.wf(),
        st.forgotten.contains_key((t, item.id)),
    ensures
        !st.items.contains_key((t, (item.id, v))),
        remember_refusal(st, t, item) == Some(Refusal::Backend(forgotten_text(item.id))),
{
    if st.items.contains_key((t, (item.id, v))) {
        assert(st.current.contains_key(version_name((t, (item.id, v)))));
    }
}

/// Nothing that read what a cascade erases survives the cascade.
pub proof fn law_cascade_leaves_no_reader(
    st: MemoryState,
    t: Seq<char>,
    root: Seq<char>,
    s: Seq<char>,
    sv: u64,
    d: Seq<char>,
    dv: u64,
)
    requires
        st.edges.contains_key((t, (s, (sv, (d, dv))))),
        doomed(st, t, root, s, sv),
    ensures
        !cascaded(st, t, root).items.contains_key((t, (d, dv))),
        !cascaded(st, t, root).items.contains_key((t, (s, sv))),
        !cascaded(st, t, root).items.contains_key((t, (root, sv))),
{
    let a = if reached(st, t, root, Node::Whole(s)) {
        Node::Whole(s)
    } else {
        Node::Version(s, sv)
    };
    assert(covers(a, s, sv));
    assert(absorbed(st, t, a, d, dv));
    assert(steps(st, t, a, target(st, t, d, dv)));
    lemma_reached_step(st, t, root, a, target(st, t, d, dv));
    assert(within(st, t, root, 0, Node::Whole(root)));
    assert(reached(st, t, root, Node::Whole(root)));
}

/// A cascade spares what it does not reach: the version stays as it is, and a
/// believed version stays believed even where superseded versions of its id
/// fall.
pub proof fn law_cascade_spares_the_rest(
    st: MemoryState,
    t: Seq<char>,
    root: Seq<char>,
    id: Seq<char>,
    v: u64,
)
    requires
        st.wf(),
        st.items.contains_key((t, (id, v))),
        !doomed(st, t, root, id, v),
    ensures
        cascaded(st, t, root).items.contains_key((t, (id, v))),
        cascaded(st, t, root).items[(t, (id, v))] == st.items[(t, (id, v))],
        cascaded(st, t, root).current.contains_key((t, id)),
        cascaded(st, t, root).current[(t, id)] == st.current[(t, id)],
        cascaded(st, t, root).forgotten.contains_key((t, id)) ==> st.forgotten.contains_key(
            (t, id),
        ),
{
    assert(st.current.contains_key(version_name((t, (id, v)))));
}

/// A tombstone still carries a cascade: with `a` read into `b` and `b` into
/// `c`, erasing `b` does not keep a cascade from `a` from reaching `c`.
pub proof fn law_cascade_routes_through_tombstones(
    st: MemoryState,
    t: Seq<char>,
    a: Seq<char>,
    av: u64,
    b: Seq<char>,
    bv: u64,
    c: Seq<char>,
    cv: u64,
)
    requires
        st.edges.contains_key((t, (a, (av, (b, bv))))),
        st.edges.contains_key((t, (b, (bv, (c, cv))))),
    ensures
        doomed(erased(st, t, set![b]), t, a, c, cv),
{
    let st2 = erased(st, t, set![b]);
    let whole = Node::Whole(a);
    assert(within(st2, t, a, 0, whole));
    assert(reached(st2, t, a, whole));
    assert(covers(whole, a, av));
    assert(st2.edges.contains_key((t, (a, (av, (b, bv))))));
    assert(absorbed(st2, t, whole, b, bv));
    let mid = target(st2, t, b, bv);
    assert(steps(st2, t, whole, mid));
    lemma_reached_step(st2, t, a, whole, mid);
    assert(covers(mid, b, bv));
    assert(st2.edges.contains_key((t, (b, (bv, (c, cv))))));
    assert(absorbed(st2, t, mid, c, cv));
    assert(steps(st2, t, mid, target(st2, t, c, cv)));
    lemma_reached_step(st2, t, a, mid, target(st2, t, c, cv));
}

/// A hold survives every erasure: whatever is held is believed afterwards, as
/// it was before.
pub proof fn law_holds_survive_erasure(
    st: MemoryState,
    t: Seq<char>,
    root: Seq<char>,
    subject: Seq<char>,
    at: Instant,
    id: Seq<char>,
)
    requires
        st.wf(),
        st.holds.contains_key((t, id)),
    ensures
        erased(st, t, expired_set(st, t, at)).current.contains_key((t, id)),
        erased(st, t, expired_set(st, t, at)).believed((t, id)) == st.believed((t, id)),
        touched(st, t, root, id) ==> cascade_held(st, t, root),
        !cascade_held(st, t, root) ==> cascaded(st, t, root).current.contains_key((t, id))
            && cascaded(st, t, root).believed((t, id)) == st.believed((t, id)),
        st.current[(t, id)].subject != subject ==> subject_forgotten(
            st,
            t,
            subject,
        ).current.contains_key((t, id)) && subject_forgotten(st, t, subject).believed((t, id))
            == st.believed((t, id)),
{
    assert(st.current.contains_key((t, id)));
    let v = st.current[(t, id)].version;
    assert(st.items.contains_key((t, (id, v))));
    if !cascade_held(st, t, root) {
        assert(!touched(st, t, root, id));
        assert(!doomed(st, t, root, id, v));
        law_cascade_spares_the_rest(st, t, root, id, v);
    }
}

/// Supersession un-absorbs nothing: a write keeps every edge there was, keeps
/// every version of every memory, and changes no more of an earlier version
/// than when it was superseded.
pub proof fn law_remembering_keeps_history(
    st: MemoryState,
    t: Seq<char>,
    item: ItemModel,
    k: Link,
    v: VersionName,
)
    requires
        st.wf(),
        remember_refusal(st, t, item) is None,
        st.edges.contains_key(k),
        st.items.contains_key(v),
    ensures
        remembered(st, t, item).edges.contains_key(k),
        remembered(st, t, item).items.contains_key(v),
        remembered(st, t, item).items[v] == (ItemModel {
            superseded_at: remembered(st, t, item).items[v].superseded_at,
            ..st.items[v]
        }),
{
    lemma_linked_grows(
        st.edges,
        t,
        item.derived_from,
        item.id,
        next_version(st, (t, item.id)),
        item.derived_from.len() as int,
        k,
    );
    assert(st.current.contains_key(version_name(v)));
}

proof fn lemma_linked_grows(
    edges: Map<Link, ()>,
    t: Seq<char>,
    sources: Seq<RefModel>,
    id: Seq<char>,
    version: u64,
    n: int,
    k: Link,
)
    requires
        edges.contains_key(k),
    ensures
        linked(edges, t, sources, id, version, n).contains_key(k),
    decreases n,
{
    if n > 0 {
        lemma_linked_grows(edges, t, sources, id, version, n - 1, k);
    }
}

/// A bounded recall is not crowded out: while a trusted memory is wanted and
/// left unanswered, no untrusted memory is answered.
pub proof fn law_recall_trust_leads(
    st: MemoryState,
    t: Seq<char>,
    q: Recall,
    out: Seq<ItemModel>,
    i: int,
    id: Seq<char>,
)
    requires
        recalled(st, t, q, out),
        0 <= i < out.len(),
        out[i].trust == Trust::Untrusted,
        wanted(st, t, q, id),
        st.believed((t, id)).trust == Trust::Trusted,
    ensures
        exists|j: int| 0 <= j < out.len() && (#[trigger] out[j]).id == id,
{
    if forall|j: int| 0 <= j < out.len() ==> (#[trigger] out[j]).id != id {
        assert(better(standing(st, t, out[i].id), standing(st, t, id)));
    }
}

/// What was remembered reads back: under its version as it was written, and as
/// what is believed under its id.
pub proof fn law_remembered_reads_back(st: MemoryState, t: Seq<char>, item: ItemModel)
    requires
        st.wf(),
        remember_refusal(st, t, item) is None,
    ensures
        ({
            let after = remembered(st, t, item);
            let version = next_version(st, (t, item.id));
            &&& after.items.contains_key((t, (item.id, version)))
            &&& after.items[(t, (item.id, version))] == stored(item, version)
            &&& after.believed((t, item.id)) == stored(item, version)
            &&& !st.items.contains_key((t, (item.id, version)))
        }),
{
    let version = next_version(st, (t, item.id));
    if st.items.contains_key((t, (item.id, version))) {
        assert(st.current.contains_key(version_name((t, (item.id, version)))));
    }
}

/// An access only ever moves a window later.
pub proof fn law_access_never_shortens(
    st: MemoryState,
    t: Seq<char>,
    ids: Seq<String>,
    n: int,
    at: i64,
    k: Name,
)
    requires
        st.access.contains_key(k),
    ensures
        touched_windows(st, t, ids, n, at).contains_key(k),
        touched_windows(st, t, ids, n, at)[k] >= st.access[k],
{
}

/// The fixed end of a memory is a ceiling: whatever its window says, it has
/// ended by then.
pub proof fn law_ceiling_wins(st: MemoryState, name: Name, access: Map<Name, i64>, at: Instant)
    requires
        st.believed(name).expires_at matches Some(e) && no_later(e, at),
    ensures
        ended(MemoryState { access, ..st }, name, at),
{
}

/// What a sweep erases, no recall as of that instant would have answered with;
/// and what a recall passes over for its age, the sweep erases unless it is held.
pub proof fn law_sweep_and_recall_agree(
    st: MemoryState,
    t: Seq<char>,
    q: Recall,
    id: Seq<char>,
    at: Instant,
)
    requires
        q.as_of == Some(at),
    ensures
        expired_set(st, t, at).contains(id) ==> !wanted(st, t, q, id),
        candidate(st, t, q, id) && !wanted(st, t, q, id) && !st.holds.contains_key((t, id))
            ==> expired_set(st, t, at).contains(id),
{
}

/// One tenant's writes and erasures leave every other tenant's memory alone.
pub proof fn law_memory_tenants_apart(
    st: MemoryState,
    t: Seq<char>,
    item: ItemModel,
    root: Seq<char>,
    subject: Seq<char>,
    at: Instant,
    other: Seq<char>,
    id: Seq<char>,
    v: u64,
)
    requires
        other != t,
    ensures
        same_memory(st, remembered(st, t, item), other, id, v),
        same_memory(st, cascaded(st, t, root), other, id, v),
        same_memory(st, subject_forgotten(st, t, subject), other, id, v),
        same_memory(st, erased(st, t, expired_set(st, t, at)), other, id, v),
{
}

/// Whether two states agree on what a tenant can read under an id.
pub open spec fn same_memory(
    a: MemoryState,
    b: MemoryState,
    t: Seq<char>,
    id: Seq<char>,
    v: u64,
) -> bool {
    &&& a.items.contains_key((t, (id, v))) == b.items.contains_key((t, (id, v)))
    &&& a.items.contains_key((t, (id, v))) ==> a.items[(t, (id, v))] == b.items[(t, (id, v))]
    &&& a.current.contains_key((t, id)) == b.current.contains_key((t, id))
    &&& a.current.contains_key((t, id)) ==> a.current[(t, id)] == b.current[(t, id)]
    &&& a.forgotten.contains_key((t, id)) == b.forgotten.contains_key((t, id))
    &&& a.holds.contains_key((t, id)) == b.holds.contains_key((t, id))
}

/// The governed memory of a plane.
pub struct MemoryBook {
    pub items: Table<(String, (String, u64)), MemoryItem>,
    pub current: Table<(String, String), CurrentRow>,
    pub by_subject: Table<(String, (String, (String, (Newest, String)))), (u64, u64)>,
    pub edges: Table<(String, (String, (u64, (String, u64)))), ()>,
    pub back_edges: Table<(String, (String, (u64, (String, u64)))), ()>,
    pub forgotten: Table<(String, String), ()>,
    pub holds: Table<(String, String), ()>,
    pub access: Table<(String, String), i64>,
}

impl View for MemoryBook {
    type V = MemoryState;

    open spec fn view(&self) -> MemoryState {
        MemoryState {
            items: self.items@,
            current: self.current@,
            by_subject: self.by_subject@,
            edges: self.edges@,
            back_edges: self.back_edges@,
            forgotten: self.forgotten@,
            holds: self.holds@,
            access: self.access@,
        }
    }
}

/// The state before anything is remembered.
pub open spec fn nothing_remembered() -> MemoryState {
    MemoryState {
        items: Map::empty(),
        current: Map::empty(),
        by_subject: Map::empty(),
        edges: Map::empty(),
        back_edges: Map::empty(),
        forgotten: Map::empty(),
        holds: Map::empty(),
        access: Map::empty(),
    }
}

/// Rows about ids of one tenant.
struct OfIds<'a> {
    tenant: &'a str,
    ids: &'a Table<String, ()>,
}

impl<'a> Pick<(String, (String, u64)), MemoryItem> for OfIds<'a> {
    closed spec fn picks(&self, k: VersionName, r: ItemModel) -> bool {
        k.0 == self.tenant@ && self.ids@.contains_key(k.1.0)
    }

    fn test(&self, k: &(String, (String, u64)), r: &MemoryItem) -> (b: bool) {
        same(&k.0, self.tenant) && self.ids.contains(&k.1.0)
    }
}

impl<'a> Pick<(String, String), CurrentRow> for OfIds<'a> {
    closed spec fn picks(&self, k: Name, r: CurrentModel) -> bool {
        k.0 == self.tenant@ && self.ids@.contains_key(k.1)
    }

    fn test(&self, k: &(String, String), r: &CurrentRow) -> (b: bool) {
        same(&k.0, self.tenant) && self.ids.contains(&k.1)
    }
}

impl<'a> Pick<(String, String), i64> for OfIds<'a> {
    closed spec fn picks(&self, k: Name, r: i64) -> bool {
        k.0 == self.tenant@ && self.ids@.contains_key(k.1)
    }

    fn test(&self, k: &(String, String), r: &i64) -> (b: bool) {
        same(&k.0, self.tenant) && self.ids.contains(&k.1)
    }
}

impl<'a> Pick<(String, (String, (String, (Newest, String)))), (u64, u64)> for OfIds<'a> {
    closed spec fn picks(&self, k: Place, r: (u64, u64)) -> bool {
        k.0 == self.tenant@ && self.ids@.contains_key(k.1.1.1.1)
    }

    fn test(&self, k: &(String, (String, (String, (Newest, String)))), r: &(u64, u64)) -> (b:
        bool) {
        same(&k.0, self.tenant) && self.ids.contains(&k.1.1.1.1)
    }
}

/// Edges into ids of one tenant.
struct InTo<'a> {
    tenant: &'a str,
    ids: &'a Table<String, ()>,
}

impl<'a> Pick<LinkKey, ()> for InTo<'a> {
    closed spec fn picks(&self, k: Link, r: ()) -> bool {
        k.0 == self.tenant@ && self.ids@.contains_key(k.1.1.1.0)
    }

    fn test(&self, k: &LinkKey, r: &()) -> (b: bool) {
        same(&k.0, self.tenant) && self.ids.contains(&k.1.1.1.0)
    }
}

/// Edges whose first end is an id of one tenant.
struct OutOf<'a> {
    tenant: &'a str,
    ids: &'a Table<String, ()>,
}

impl<'a> Pick<LinkKey, ()> for OutOf<'a> {
    closed spec fn picks(&self, k: Link, r: ()) -> bool {
        k.0 == self.tenant@ && self.ids@.contains_key(k.1.0)
    }

    fn test(&self, k: &LinkKey, r: &()) -> (b: bool) {
        same(&k.0, self.tenant) && self.ids.contains(&k.1.0)
    }
}

/// What a cascade found: ids that fall whole, and versions that fall alone.
struct Trace {
    whole: Table<String, ()>,
    alone: Table<(String, u64), ()>,
}

impl Trace {
    /// Whether the cascade erases a version.
    spec fn dooms(&self, id: Seq<char>, v: u64) -> bool {
        self.whole@.contains_key(id) || self.alone@.contains_key((id, v))
    }

    fn takes(&self, id: &String, v: u64) -> (b: bool)
        ensures
            b == self.dooms(id@, v),
    {
        self.whole.contains(id) || self.alone.contains(&(id.clone(), v))
    }

    /// The trace is what a cascade from `root` reaches.
    spec fn exact(&self, st: MemoryState, t: Seq<char>, root: Seq<char>) -> bool {
        &&& forall|id: Seq<char>| #[trigger]
            self.whole@.contains_key(id) <==> reached(st, t, root, Node::Whole(id))
        &&& forall|p: (Seq<char>, u64)| #[trigger]
            self.alone@.contains_key(p) ==> reached(st, t, root, Node::Version(p.0, p.1))
        &&& forall|id: Seq<char>, v: u64| #[trigger]
            doomed(st, t, root, id, v) ==> self.dooms(id, v)
    }
}

/// Rows that a cascade takes out of one tenant.
struct Cascade<'a> {
    tenant: &'a str,
    trace: &'a Trace,
}

impl<'a> Pick<(String, (String, u64)), MemoryItem> for Cascade<'a> {
    closed spec fn picks(&self, k: VersionName, r: ItemModel) -> bool {
        k.0 == self.tenant@ && self.trace.dooms(k.1.0, k.1.1)
    }

    fn test(&self, k: &(String, (String, u64)), r: &MemoryItem) -> (b: bool) {
        same(&k.0, self.tenant) && self.trace.takes(&k.1.0, k.1.1)
    }
}

impl<'a> Pick<(String, (String, (u64, (String, u64)))), ()> for Cascade<'a> {
    closed spec fn picks(&self, k: Link, r: ()) -> bool {
        k.0 == self.tenant@ && (self.trace.dooms(k.1.0, k.1.1.0) || self.trace.dooms(
            k.1.1.1.0,
            k.1.1.1.1,
        ))
    }

    fn test(&self, k: &(String, (String, (u64, (String, u64)))), r: &()) -> (b: bool) {
        same(&k.0, self.tenant) && (self.trace.takes(&k.1.0, k.1.1.0) || self.trace.takes(
            &k.1.1.1.0,
            k.1.1.1.1,
        ))
    }
}

/// A version that a cascade has seen is taken care of: its id has fallen or is
/// about to, it has fallen alone, or it is still to be looked at.
spec fn settled(
    st: MemoryState,
    t: Seq<char>,
    whole: Map<Seq<char>, ()>,
    alone: Map<(Seq<char>, u64), ()>,
    ids: Map<Seq<char>, ()>,
    versions: Map<(Seq<char>, u64), ()>,
    id: Seq<char>,
    v: u64,
) -> bool {
    ||| whole.contains_key(id)
    ||| versions.contains_key((id, v))
    ||| (target(st, t, id, v) == Node::Whole(id) && ids.contains_key(id))
    ||| (target(st, t, id, v) == Node::Version(id, v) && alone.contains_key((id, v)))
}

/// Everything derived from what has fallen is settled.
spec fn advancing(
    st: MemoryState,
    t: Seq<char>,
    whole: Map<Seq<char>, ()>,
    alone: Map<(Seq<char>, u64), ()>,
    ids: Map<Seq<char>, ()>,
    versions: Map<(Seq<char>, u64), ()>,
) -> bool {
    forall|s: Seq<char>, sv: u64, id: Seq<char>, v: u64| #[trigger]
        st.edges.contains_key((t, (s, (sv, (id, v))))) && (whole.contains_key(s)
            || alone.contains_key((s, sv))) ==> settled(
            st,
            t,
            whole,
            alone,
            ids,
            versions,
            id,
            v,
        )
}

/// Once nothing is left to look at, the cascade has reached everything.
proof fn lemma_trace_complete(
    st: MemoryState,
    t: Seq<char>,
    root: Seq<char>,
    whole: Map<Seq<char>, ()>,
    alone: Map<(Seq<char>, u64), ()>,
    n: nat,
    b: Node,
)
    requires
        advancing(st, t, whole, alone, Map::empty(), Map::empty()),
        whole.contains_key(root),
        within(st, t, root, n, b),
    ensures
        match b {
            Node::Whole(id) => whole.contains_key(id),
            Node::Version(id, v) => whole.contains_key(id) || alone.contains_key((id, v)),
        },
    decreases n,
{
    if n > 0 {
        let m = (n - 1) as nat;
        if within(st, t, root, m, b) {
            lemma_trace_complete(st, t, root, whole, alone, m, b);
        } else {
            let a = choose|a: Node|
                #![trigger steps(st, t, a, b)]
                within(st, t, root, m, a) && steps(st, t, a, b);
            lemma_trace_complete(st, t, root, whole, alone, m, a);
            let (id, v) = choose|id: Seq<char>, v: u64| #[trigger]
                absorbed(st, t, a, id, v) && b == target(st, t, id, v);
            let (s, sv) = choose|s: Seq<char>, sv: u64|
                covers(a, s, sv) && #[trigger] st.edges.contains_key((t, (s, (sv, (id, v)))));
            assert(settled(st, t, whole, alone, Map::empty(), Map::empty(), id, v));
        }
    }
}

/// One more step from something reached is reached.
proof fn lemma_reached_step(st: MemoryState, t: Seq<char>, root: Seq<char>, a: Node, b: Node)
    requires
        reached(st, t, root, a),
        steps(st, t, a, b),
    ensures
        reached(st, t, root, b),
{
    let n = choose|n: nat| within(st, t, root, n, a);
    assert(within(st, t, root, n + 1, b));
}

impl MemoryBook {
    /// A memory that holds nothing.
    pub fn new() -> (m: MemoryBook)
        ensures
            m@ == nothing_remembered(),
            m@.wf(),
    {
        MemoryBook {
            items: Table::new(),
            current: Table::new(),
            by_subject: Table::new(),
            edges: Table::new(),
            back_edges: Table::new(),
            forgotten: Table::new(),
            holds: Table::new(),
            access: Table::new(),
        }
    }

    /// Queues every version that read something of a node: of the whole id, or
    /// of one version of it.
    fn push_readers(
        &self,
        tenant: &str,
        source: &String,
        version: Option<u64>,
        pending: &mut Table<(String, u64), ()>,
    )
        ensures
            forall|p: (Seq<char>, u64)| #[trigger]
                final(pending)@.contains_key(p) <==> (old(pending)@.contains_key(p) || absorbed(
                    self@,
                    tenant@,
                    match version {
                        None => Node::Whole(source@),
                        Some(v) => Node::Version(source@, v),
                    },
                    p.0,
                    p.1,
                )),
    {
        let ghost node = match version {
            None => Node::Whole(source@),
            Some(v) => Node::Version(source@, v),
        };
        let n = self.edges.len();
        let ghost e = self.edges.entries();
        let mut i: usize = 0;
        while i < n
            invariant
                n == e.len(),
                e == self.edges.entries(),
                node == match version {
                    None => Node::Whole(source@),
                    Some(v) => Node::Version(source@, v),
                },
                i <= n,
                forall|j: int|
                    0 <= j < n ==> self.edges@.contains_key((#[trigger] e[j]).0),
                forall|p: (Seq<char>, u64)| #[trigger]
                    pending@.contains_key(p) ==> old(pending)@.contains_key(p) || absorbed(
                        self@,
                        tenant@,
                        node,
                        p.0,
                        p.1,
                    ),
                forall|p: (Seq<char>, u64)| #[trigger]
                    old(pending)@.contains_key(p) ==> pending@.contains_key(p),
                forall|j: int|
                    0 <= j < i && (#[trigger] e[j]).0.0 == tenant@ && covers(
                        node,
                        e[j].0.1.0,
                        e[j].0.1.1.0,
                    ) ==> pending@.contains_key((e[j].0.1.1.1.0, e[j].0.1.1.1.1)),
            decreases n - i,
        {
            let k = self.edges.key_at(i);
            let of_version = match version {
                None => true,
                Some(v) => v == k.1.1.0,
            };
            if same(&k.0, tenant) && of_version && k.1.0 == *source {
                pending.insert((k.1.1.1.0.clone(), k.1.1.1.1), ());
                assert(self@.edges.contains_key(e[i as int].0));
                assert(absorbed(self@, tenant@, node, k@.1.1.1.0, k@.1.1.1.1));
            }
            i = i + 1;
        }
        proof {
            assert forall|p: (Seq<char>, u64)| absorbed(
                self@,
                tenant@,
                node,
                p.0,
                p.1,
            ) implies pending@.contains_key(p) by {
                let (s, sv) = choose|s: Seq<char>, sv: u64|
                    covers(node, s, sv) && #[trigger] self@.edges.contains_key(
                        (tenant@, (s, (sv, (p.0, p.1)))),
                    );
                let k = (tenant@, (s, (sv, (p.0, p.1))));
                assert(self.edges@.contains_key(k));
                let j = choose|j: int| 0 <= j < e.len() && (#[trigger] e[j]).0 == k;
                assert(e[j].0 == k);
            }
        }
    }

    /// Follows the lineage of an id to everything that absorbed it.
    fn trace(&self, tenant: &str, root: &str) -> (trace: Trace)
        ensures
            trace.exact(self@, tenant@, root@),
    {
        let ghost st = self@;
        let ghost t = tenant@;
        let _ = self.edges.len();
        let ghost e = self.edges.entries();
        let ghost ends = Seq::new(e.len(), |i: int| (e[i].0.1.1.1.0, e[i].0.1.1.1.1));
        let ghost all_versions = ends.to_set();
        let ghost all_ids = Seq::new(e.len(), |i: int| e[i].0.1.1.1.0).to_set().insert(root@);
        proof {
            vstd::seq_lib::seq_to_set_is_finite(ends);
            vstd::seq_lib::seq_to_set_is_finite(Seq::new(e.len(), |i: int| e[i].0.1.1.1.0));
            assert forall|n: Node, id: Seq<char>, v: u64| #[trigger]
                absorbed(st, t, n, id, v) implies all_versions.contains((id, v))
                && all_ids.contains(id) by {
                let (s, sv) = choose|s: Seq<char>, sv: u64|
                    covers(n, s, sv) && #[trigger] st.edges.contains_key(
                        (t, (s, (sv, (id, v)))),
                    );
                let k = (t, (s, (sv, (id, v))));
                assert(self.edges@.contains_key(k));
                let j = choose|j: int| 0 <= j < e.len() && (#[trigger] e[j]).0 == k;
                assert(ends[j] == (id, v));
                assert(Seq::new(e.len(), |i: int| e[i].0.1.1.1.0)[j] == id);
            }
            assert(within(st, t, root@, 0, Node::Whole(root@)));
            assert(reached(st, t, root@, Node::Whole(root@)));
        }
        let mut whole: Table<String, ()> = Table::new();
        let mut alone: Table<(String, u64), ()> = Table::new();
        let mut ids: Table<String, ()> = Table::new();
        let mut versions: Table<(String, u64), ()> = Table::new();
        ids.insert(root.to_owned(), ());
        loop
            invariant
                st == self@,
                t == tenant@,
                all_versions.finite(),
                all_ids.finite(),
                forall|n: Node, id: Seq<char>, v: u64| #[trigger]
                    absorbed(st, t, n, id, v) ==> all_versions.contains((id, v))
                        && all_ids.contains(id),
                whole@.contains_key(root@) || ids@.contains_key(root@),
                forall|id: Seq<char>| #[trigger]
                    whole@.contains_key(id) ==> reached(st, t, root@, Node::Whole(id)),
                forall|id: Seq<char>| #[trigger]
                    ids@.contains_key(id) ==> reached(st, t, root@, Node::Whole(id))
                        && all_ids.contains(id),
                forall|p: (Seq<char>, u64)| #[trigger]
                    alone@.contains_key(p) ==> reached(st, t, root@, Node::Version(p.0, p.1)),
                forall|p: (Seq<char>, u64)| #[trigger]
                    versions@.contains_key(p) ==> reached(
                        st,
                        t,
                        root@,
                        target(st, t, p.0, p.1),
                    ) && all_versions.contains(p) && all_ids.contains(p.0),
                advancing(st, t, whole@, alone@, ids@, versions@),
            ensures
                ids@ == Map::<Seq<char>, ()>::empty(),
                versions@ == Map::<(Seq<char>, u64), ()>::empty(),
                whole@.contains_key(root@) || ids@.contains_key(root@),
                advancing(st, t, whole@, alone@, ids@, versions@),
                forall|id: Seq<char>| #[trigger]
                    whole@.contains_key(id) ==> reached(st, t, root@, Node::Whole(id)),
                forall|p: (Seq<char>, u64)| #[trigger]
                    alone@.contains_key(p) ==> reached(st, t, root@, Node::Version(p.0, p.1)),
            decreases
                all_ids.difference(whole@.dom()).len(),
                all_versions.difference(alone@.dom()).len(),
                2 * versions@.dom().len() + ids@.dom().len(),
        {
            let ghost whole0 = whole@;
            let ghost alone0 = alone@;
            let ghost ids0 = ids@;
            let ghost versions0 = versions@;
            proof {
                lemma_keys_finite(ids.entries());
                lemma_keys_finite(versions.entries());
            }
            if ids.len() > 0 {
                let source = ids.key_at(0).clone();
                assert(ids@.contains_key(ids.entries()[0].0));
                let _ = ids.remove(&source);
                assert(ids@.dom() =~= ids0.dom().remove(source@));
                if whole.contains(&source) {
                    assert(advancing(st, t, whole@, alone@, ids@, versions@));
                    continue;
                }
                self.push_readers(tenant, &source, None, &mut versions);
                whole.insert(source.clone(), ());
                proof {
                    assert(all_ids.difference(whole@.dom()) =~= all_ids.difference(
                        whole0.dom(),
                    ).remove(source@));
                    lemma_pushed_reached(st, t, root@, Node::Whole(source@));
                    assert forall|s: Seq<char>, sv: u64, id: Seq<char>, v: u64| #[trigger]
                        st.edges.contains_key((t, (s, (sv, (id, v))))) && (whole@.contains_key(s)
                            || alone@.contains_key((s, sv))) implies settled(
                        st,
                        t,
                        whole@,
                        alone@,
                        ids@,
                        versions@,
                        id,
                        v,
                    ) by {
                        if s == source@ {
                            assert(covers(Node::Whole(source@), s, sv));
                            assert(absorbed(st, t, Node::Whole(source@), id, v));
                            assert(versions@.contains_key((id, v)));
                        } else {
                            assert(settled(st, t, whole0, alone0, ids0, versions0, id, v));
                            if versions0.contains_key((id, v)) {
                                assert(versions@.contains_key((id, v)));
                            }
                        }
                    }
                }
            } else if versions.len() > 0 {
                let next = versions.key_at(0).twin();
                assert(versions@.contains_key(versions.entries()[0].0));
                let _ = versions.remove(&next);
                assert(versions@.dom() =~= versions0.dom().remove(next@));
                if whole.contains(&next.0) {
                    assert(advancing(st, t, whole@, alone@, ids@, versions@));
                    continue;
                }
                let believed = match self.current.get(&(tenant.to_owned(), next.0.clone())) {
                    Some(row) => row.version == next.1,
                    None => false,
                };
                if believed {
                    ids.insert(next.0.clone(), ());
                    proof {
                        assert(ids@.dom() =~= ids0.dom().insert(next@.0));
                    }
                    assert(advancing(st, t, whole@, alone@, ids@, versions@));
                } else {
                    if alone.contains(&next) {
                        assert(advancing(st, t, whole@, alone@, ids@, versions@));
                        continue;
                    }
                    self.push_readers(tenant, &next.0, Some(next.1), &mut versions);
                    let ghost nv = next@;
                    alone.insert(next, ());
                    proof {
                        assert(all_versions.difference(alone@.dom()) =~= all_versions.difference(
                            alone0.dom(),
                        ).remove(nv));
                        lemma_pushed_reached(st, t, root@, Node::Version(nv.0, nv.1));
                        assert forall|s: Seq<char>, sv: u64, id: Seq<char>, v: u64| #[trigger]
                            st.edges.contains_key((t, (s, (sv, (id, v))))) && (
                            whole@.contains_key(s) || alone@.contains_key(
                                (s, sv),
                            )) implies settled(
                            st,
                            t,
                            whole@,
                            alone@,
                            ids@,
                            versions@,
                            id,
                            v,
                        ) by {
                            if (s, sv) == nv {
                                assert(covers(Node::Version(nv.0, nv.1), s, sv));
                                assert(absorbed(st, t, Node::Version(nv.0, nv.1), id, v));
                                assert(versions@.contains_key((id, v)));
                            } else {
                                assert(settled(st, t, whole0, alone0, ids0, versions0, id, v));
                                if versions0.contains_key((id, v)) && (id, v) != nv {
                                    assert(versions@.contains_key((id, v)));
                                }
                            }
                        }
                    }
                }
            } else {
                proof {
                    assert(ids@ =~= Map::<Seq<char>, ()>::empty()) by {
                        assert forall|id: Seq<char>| !ids@.contains_key(id) by {
                            if ids@.contains_key(id) {
                                assert(has_key(ids.entries(), id));
                            }
                        }
                    }
                    assert(versions@ =~= Map::<(Seq<char>, u64), ()>::empty()) by {
                        assert forall|p: (Seq<char>, u64)| !versions@.contains_key(p) by {
                            if versions@.contains_key(p) {
                                assert(has_key(versions.entries(), p));
                            }
                        }
                    }
                }
                break ;
            }
        }
        let trace = Trace { whole, alone };
        proof {
            assert forall|id: Seq<char>| reached(
                st,
                t,
                root@,
                Node::Whole(id),
            ) implies trace.whole@.contains_key(id) by {
                let n = choose|n: nat| within(st, t, root@, n, Node::Whole(id));
                lemma_trace_complete(
                    st,
                    t,
                    root@,
                    trace.whole@,
                    trace.alone@,
                    n,
                    Node::Whole(id),
                );
            }
            assert forall|id: Seq<char>, v: u64| #[trigger]
                doomed(st, t, root@, id, v) implies trace.dooms(id, v) by {
                if !reached(st, t, root@, Node::Whole(id)) {
                    let n = choose|n: nat| within(st, t, root@, n, Node::Version(id, v));
                    lemma_trace_complete(
                        st,
                        t,
                        root@,
                        trace.whole@,
                        trace.alone@,
                        n,
                        Node::Version(id, v),
                    );
                }
            }
        }
        trace
    }

    /// Takes every version of these ids out, and leaves their tombstones.
    fn erase(&mut self, tenant: &str, ids: &Table<String, ()>)
        ensures
            final(self)@ == erased(old(self)@, tenant@, ids@.dom()),
    {
        let pick = OfIds { tenant, ids };
        self.items.drop_where(&pick);
        self.current.drop_where(&pick);
        self.by_subject.drop_where(&pick);
        self.access.drop_where(&pick);
        let n = ids.len();
        let ghost before = self.forgotten@;
        let ghost e = ids.entries();
        let mut i: usize = 0;
        while i < n
            invariant
                i <= n,
                n == e.len(),
                e == ids.entries(),
                self.items@ == kept::<(String, (String, u64)), MemoryItem, OfIds>(
                    old(self).items@,
                    pick,
                ),
                self.current@ == kept::<(String, String), CurrentRow, OfIds>(
                    old(self).current@,
                    pick,
                ),
                self.by_subject@ == kept::<
                    (String, (String, (String, (Newest, String)))),
                    (u64, u64),
                    OfIds,
                >(old(self).by_subject@, pick),
                self.access@ == kept::<(String, String), i64, OfIds>(old(self).access@, pick),
                self.edges@ == old(self).edges@,
                self.back_edges@ == old(self).back_edges@,
                self.holds@ == old(self).holds@,
                forall|k: Name| #[trigger]
                    self.forgotten@.contains_key(k) ==> before.contains_key(k) || (k.0 == tenant@
                        && ids@.contains_key(k.1)),
                forall|k: Name| #[trigger]
                    before.contains_key(k) ==> self.forgotten@.contains_key(k),
                forall|j: int|
                    0 <= j < i ==> self.forgotten@.contains_key((tenant@, (#[trigger] e[j]).0)),
                forall|j: int| 0 <= j < n ==> ids@.contains_key((#[trigger] e[j]).0),
            decreases n - i,
        {
            let id = ids.key_at(i).clone();
            assert(ids@.contains_key(e[i as int].0));
            self.forgotten.insert((tenant.to_owned(), id), ());
            i = i + 1;
        }
        proof {
            let after = erased(old(self)@, tenant@, ids@.dom());
            assert(self.items@ =~= after.items);
            assert(self.current@ =~= after.current);
            assert(self.by_subject@ =~= after.by_subject);
            assert(self.access@ =~= after.access);
            assert forall|k: Name| self.forgotten@.contains_key(k) == after.forgotten.contains_key(
                k,
            ) by {
                if k.0 == tenant@ && ids@.contains_key(k.1) {
                    assert(has_key(e, k.1));
                    let j = choose|j: int| 0 <= j < e.len() && (#[trigger] e[j]).0 == k.1;
                    assert(self.forgotten@.contains_key((tenant@, e[j].0)));
                }
            }
            assert(self.forgotten@ =~= after.forgotten);
        }
    }

    /// The first id of a cascade that a hold protects: among the ids that fall
    /// whole if there is one there, and among the versions otherwise.
    fn held_in(&self, tenant: &str, trace: &Trace) -> (r: Option<String>)
        ensures
            match r {
                None => {
                    &&& forall|id: Seq<char>| #[trigger]
                        trace.whole@.contains_key(id) ==> !self@.holds.contains_key((tenant@, id))
                    &&& forall|p: (Seq<char>, u64)| #[trigger]
                        trace.alone@.contains_key(p) ==> !self@.holds.contains_key(
                            (tenant@, p.0),
                        )
                },
                Some(m) => {
                    &&& self@.holds.contains_key((tenant@, m@))
                    &&& if trace.whole@.contains_key(m@) {
                        forall|id: Seq<char>| #[trigger]
                            trace.whole@.contains_key(id) && self@.holds.contains_key((tenant@, id))
                                ==> !text_before(id, m@)
                    } else {
                        &&& exists|v: u64| #[trigger] trace.alone@.contains_key((m@, v))
                        &&& forall|id: Seq<char>| #[trigger]
                            trace.whole@.contains_key(id) ==> !self@.holds.contains_key(
                                (tenant@, id),
                            )
                        &&& forall|p: (Seq<char>, u64)| #[trigger]
                            trace.alone@.contains_key(p) && self@.holds.contains_key(
                                (tenant@, p.0),
                            ) ==> !text_before(p.0, m@)
                    }
                },
            },
    {
        let n = trace.whole.len();
        let ghost e = trace.whole.entries();
        let mut i: usize = 0;
        while i < n
            invariant
                i <= n,
                n == e.len(),
                e == trace.whole.entries(),
                in_order::<String, ()>(e),
                forall|j: int| 0 <= j < n ==> trace.whole@.contains_key((#[trigger] e[j]).0),
                forall|id: Seq<char>| #[trigger]
                    trace.whole@.contains_key(id) ==> has_key(e, id),
                forall|j: int|
                    0 <= j < i ==> !self@.holds.contains_key((tenant@, (#[trigger] e[j]).0)),
            decreases n - i,
        {
            let id = trace.whole.key_at(i).clone();
            if self.holds.contains(&(tenant.to_owned(), id.clone())) {
                proof {
                    assert(trace.whole@.contains_key(e[i as int].0));
                    assert forall|x: Seq<char>| #[trigger]
                        trace.whole@.contains_key(x) && self@.holds.contains_key(
                            (tenant@, x),
                        ) implies !text_before(x, id@) by {
                        let j = choose|j: int| 0 <= j < e.len() && (#[trigger] e[j]).0 == x;
                        String::lemma_irreflexive(x);
                        if j > i && text_before(x, id@) {
                            assert(String::precedes(e[i as int].0, e[j].0));
                            String::lemma_transitive(x, id@, x);
                        }
                    }
                }
                return Some(id);
            }
            i = i + 1;
        }
        proof {
            assert forall|id: Seq<char>| #[trigger]
                trace.whole@.contains_key(id) implies !self@.holds.contains_key((tenant@, id)) by {
                let j = choose|j: int| 0 <= j < e.len() && (#[trigger] e[j]).0 == id;
                assert(e[j].0 == id);
            }
        }
        let n = trace.alone.len();
        let ghost f = trace.alone.entries();
        let mut i: usize = 0;
        while i < n
            invariant
                i <= n,
                n == f.len(),
                f == trace.alone.entries(),
                in_order::<(String, u64), ()>(f),
                forall|id: Seq<char>| #[trigger]
                    trace.whole@.contains_key(id) ==> !self@.holds.contains_key((tenant@, id)),
                forall|j: int| 0 <= j < n ==> trace.alone@.contains_key((#[trigger] f[j]).0),
                forall|p: (Seq<char>, u64)| #[trigger]
                    trace.alone@.contains_key(p) ==> has_key(f, p),
                forall|j: int|
                    0 <= j < i ==> !self@.holds.contains_key((tenant@, (#[trigger] f[j]).0.0)),
            decreases n - i,
        {
            let id = trace.alone.key_at(i).0.clone();
            if self.holds.contains(&(tenant.to_owned(), id.clone())) {
                proof {
                    assert(trace.alone@.contains_key(f[i as int].0));
                    assert(trace.alone@.contains_key((id@, f[i as int].0.1)));
                    assert forall|x: (Seq<char>, u64)| #[trigger]
                        trace.alone@.contains_key(x) && self@.holds.contains_key(
                            (tenant@, x.0),
                        ) implies !text_before(x.0, id@) by {
                        let j = choose|j: int| 0 <= j < f.len() && (#[trigger] f[j]).0 == x;
                        String::lemma_irreflexive(x.0);
                        if j > i && text_before(x.0, id@) {
                            assert(<(String, u64)>::precedes(f[i as int].0, f[j].0));
                            if text_before(id@, x.0) {
                                String::lemma_transitive(x.0, id@, x.0);
                            }
                        }
                    }
                }
                return Some(id);
            }
            i = i + 1;
        }
        proof {
            assert forall|p: (Seq<char>, u64)| #[trigger]
                trace.alone@.contains_key(p) implies !self@.holds.contains_key((tenant@, p.0)) by {
                let j = choose|j: int| 0 <= j < f.len() && (#[trigger] f[j]).0 == p;
                assert(f[j].0 == p);
            }
        }
        None
    }

    /// How many ids a cascade takes content from. A tombstone that the cascade
    /// only passed through is not counted.
    fn count_emptied(&self, tenant: &str, root: &str, trace: &Trace) -> (n: usize)
        requires
            self@.wf(),
            trace.exact(self@, tenant@, root@),
        ensures
            n == emptied(self@, tenant@, root@).len(),
    {
        let ghost st = self@;
        let ghost t = tenant@;
        let mut found: Table<String, ()> = Table::new();
        let n = trace.whole.len();
        let ghost e = trace.whole.entries();
        let mut i: usize = 0;
        while i < n
            invariant
                i <= n,
                n == e.len(),
                e == trace.whole.entries(),
                st == self@,
                st.wf(),
                t == tenant@,
                trace.exact(st, t, root@),
                forall|j: int| 0 <= j < n ==> trace.whole@.contains_key((#[trigger] e[j]).0),
                forall|id: Seq<char>| #[trigger]
                    found@.contains_key(id) ==> emptied(st, t, root@).contains(id),
                forall|j: int|
                    0 <= j < i && st.current.contains_key((t, (#[trigger] e[j]).0))
                        ==> found@.contains_key(e[j].0),
            decreases n - i,
        {
            let id = trace.whole.key_at(i).clone();
            if self.current.contains(&(tenant.to_owned(), id.clone())) {
                proof {
                    assert(trace.whole@.contains_key(e[i as int].0));
                    let v = st.current[(t, id@)].version;
                    assert(st.items.contains_key((t, (id@, v))));
                    assert(doomed(st, t, root@, id@, v));
                }
                found.insert(id, ());
            }
            i = i + 1;
        }
        let m = trace.alone.len();
        let ghost f = trace.alone.entries();
        let mut i: usize = 0;
        while i < m
            invariant
                i <= m,
                m == f.len(),
                f == trace.alone.entries(),
                st == self@,
                t == tenant@,
                trace.exact(st, t, root@),
                forall|j: int| 0 <= j < m ==> trace.alone@.contains_key((#[trigger] f[j]).0),
                forall|id: Seq<char>| #[trigger]
                    found@.contains_key(id) ==> emptied(st, t, root@).contains(id),
                forall|j: int|
                    0 <= j < e.len() && st.current.contains_key((t, (#[trigger] e[j]).0))
                        ==> found@.contains_key(e[j].0),
                forall|j: int|
                    0 <= j < i && st.items.contains_key(
                        (t, ((#[trigger] f[j]).0.0, f[j].0.1)),
                    ) ==> found@.contains_key(f[j].0.0),
            decreases m - i,
        {
            let p = trace.alone.key_at(i);
            if self.items.contains(&(tenant.to_owned(), (p.0.clone(), p.1))) {
                proof {
                    assert(trace.alone@.contains_key(f[i as int].0));
                    assert(doomed(st, t, root@, p@.0, p@.1));
                    assert(st.items.contains_key((t, (p@.0, p@.1))));
                }
                found.insert(p.0.clone(), ());
            }
            i = i + 1;
        }
        proof {
            assert forall|id: Seq<char>| emptied(st, t, root@).contains(
                id,
            ) implies found@.contains_key(id) by {
                let v = choose|v: u64|
                    #![trigger st.items.contains_key((t, (id, v)))]
                    st.items.contains_key((t, (id, v))) && doomed(st, t, root@, id, v);
                assert(trace.dooms(id, v));
                assert(st.current.contains_key(version_name((t, (id, v)))));
                if trace.whole@.contains_key(id) {
                    assert(has_key(e, id));
                    let j = choose|j: int| 0 <= j < e.len() && (#[trigger] e[j]).0 == id;
                    assert(found@.contains_key(e[j].0));
                } else {
                    assert(has_key(f, (id, v)));
                    let j = choose|j: int| 0 <= j < f.len() && (#[trigger] f[j]).0 == (id, v);
                    assert(found@.contains_key(f[j].0.0));
                }
            }
            assert(found@.dom() =~= emptied(st, t, root@));
        }
        let total = found.len();
        proof {
            lemma_keys_counted::<String, ()>(found.entries());
        }
        total
    }

    /// Erases a memory with everything that absorbed it.
    ///
    /// A derivative whose believed version read what is erased falls as a whole
    /// id. One whose superseded versions alone read it loses those versions and
    /// keeps what it believes now. A hold on any of them refuses the cascade.
    pub fn forget_cascading(&mut self, tenant: &str, id: &str) -> (r: Result<usize, StoreError>)
        requires
            old(self)@.wf(),
        ensures
            final(self)@.wf(),
            match r {
                Ok(n) => {
                    &&& !cascade_held(old(self)@, tenant@, id@)
                    &&& n == emptied(old(self)@, tenant@, id@).len()
                    &&& final(self)@ == cascaded(old(self)@, tenant@, id@)
                },
                Err(e) => {
                    &&& cascade_held(old(self)@, tenant@, id@)
                    &&& final(self)@ == old(self)@
                    &&& exists|m: Seq<char>|
                        e@ == Refusal::Backend(held_text(m)) && #[trigger] first_held(
                            old(self)@,
                            tenant@,
                            id@,
                            m,
                        )
                },
            },
    {
        let ghost st = self@;
        let ghost t = tenant@;
        let trace = self.trace(tenant, id);
        match self.held_in(tenant, &trace) {
            Some(m) => {
                proof {
                    lemma_first_held(st, t, id@, &trace, m@);
                }
                return Err(
                    StoreError::Backend(join3("memory '", &m, "' is under legal hold")),
                );
            },
            None => {},
        }
        proof {
            assert forall|x: Seq<char>| st.holds.contains_key((t, x)) implies !#[trigger] touched(
                st,
                t,
                id@,
                x,
            ) by {
                if touched(st, t, id@, x) {
                    let v = choose|v: u64| #[trigger] doomed(st, t, id@, x, v);
                    assert(trace.dooms(x, v));
                    if !trace.whole@.contains_key(x) {
                        assert(trace.alone@.contains_key((x, v)));
                    }
                }
            }
            lemma_cascaded_wf(st, t, id@);
        }
        let n = self.count_emptied(tenant, id, &trace);
        self.erase(tenant, &trace.whole);
        let pick = Cascade { tenant, trace: &trace };
        let ghost mid = self@;
        self.items.drop_where(&pick);
        self.edges.drop_where(&pick);
        self.back_edges.drop_where(&pick);
        proof {
            let after = cascaded(st, t, id@);
            assert(trace.whole@.dom() =~= fallen(st, t, id@));
            assert forall|x: Seq<char>, v: u64| trace.dooms(x, v) == #[trigger] doomed(
                st,
                t,
                id@,
                x,
                v,
            ) by {
                if trace.alone@.contains_key((x, v)) {
                }
            }
            assert forall|k: VersionName| self@.items.contains_key(k)
                == after.items.contains_key(k) by {
                assert(trace.dooms(k.1.0, k.1.1) == doomed(st, t, id@, k.1.0, k.1.1));
                assert(trace.whole@.contains_key(k.1.0) == fallen(st, t, id@).contains(k.1.0));
            }
            assert forall|k: VersionName| self@.items.contains_key(k) implies self@.items[k]
                == after.items[k] by {
                assert(mid.items.contains_key(k));
                assert(self@.items[k] == mid.items[k]);
                assert(mid.items[k] == st.items[k]);
                assert(after.items.contains_key(k));
            }
            assert(self@.items =~= after.items);
            assert(self@.edges =~= after.edges);
            assert(self@.back_edges =~= after.back_edges);
            assert(self@ =~= after);
        }
        Ok(n)
    }

    /// Erases every version of a memory. Its lineage stays, so that a cascade
    /// from further upstream still routes through it.
    pub fn forget(&mut self, tenant: &str, id: &str) -> (r: Result<(), StoreError>)
        requires
            old(self)@.wf(),
        ensures
            final(self)@.wf(),
            match forget_refusal(old(self)@, tenant@, id@) {
                Some(why) => r matches Err(e) && e@ == why && final(self)@ == old(self)@,
                None => r is Ok && final(self)@ == forgotten_one(old(self)@, tenant@, id@),
            },
    {
        let name = (tenant.to_owned(), id.to_owned());
        if self.holds.contains(&name) {
            return Err(StoreError::Backend(join3("memory '", id, "' is under legal hold")));
        }
        if self.current.contains(&name) {
            let mut ids: Table<String, ()> = Table::new();
            ids.insert(id.to_owned(), ());
            proof {
                lemma_erased_wf(self@, tenant@, set![id@]);
                assert(ids@.dom() =~= set![id@]);
            }
            self.erase(tenant, &ids);
        }
        Ok(())
    }

    /// Erases everything believed about a subject.
    pub fn forget_subject(&mut self, tenant: &str, subject: &str) -> (r: Result<usize, StoreError>)
        requires
            old(self)@.wf(),
        ensures
            final(self)@.wf(),
            match r {
                Ok(n) => {
                    &&& n == subject_set(old(self)@, tenant@, subject@).len()
                    &&& final(self)@ == subject_forgotten(old(self)@, tenant@, subject@)
                    &&& forall|id: Seq<char>| #[trigger]
                        subject_set(old(self)@, tenant@, subject@).contains(id) ==> !old(
                            self,
                        )@.holds.contains_key((tenant@, id))
                },
                Err(e) => {
                    &&& final(self)@ == old(self)@
                    &&& exists|m: Seq<char>|
                        e@ == Refusal::Backend(held_text(m)) && #[trigger] first_held_of_subject(
                            old(self)@,
                            tenant@,
                            subject@,
                            m,
                        )
                },
            },
    {
        let ghost st = self@;
        let ghost t = tenant@;
        let ghost all = subject_set(st, t, subject@);
        let mut ids: Table<String, ()> = Table::new();
        let n = self.by_subject.len();
        let ghost e = self.by_subject.entries();
        let mut i: usize = 0;
        while i < n
            invariant
                i <= n,
                n == e.len(),
                e == self.by_subject.entries(),
                st == self@,
                st.wf(),
                t == tenant@,
                all == subject_set(st, t, subject@),
                in_order::<PlaceKey, (u64, u64)>(e),
                forall|j: int| 0 <= j < n ==> st.by_subject.contains_key((#[trigger] e[j]).0),
                forall|k: Place| #[trigger] st.by_subject.contains_key(k) ==> has_key(e, k),
                forall|id: Seq<char>| #[trigger]
                    ids@.contains_key(id) ==> all.contains(id) && !st.holds.contains_key((t, id)),
                forall|j: int|
                    0 <= j < i && (#[trigger] e[j]).0.0 == t && e[j].0.1.0 == subject@
                        ==> ids@.contains_key(e[j].0.1.1.1.1),
            decreases n - i,
        {
            let k = self.by_subject.key_at(i);
            assert(st.by_subject.contains_key(e[i as int].0));
            if same(&k.0, tenant) && same(&k.1.0, subject) {
                let id = k.1.1.1.1.clone();
                if self.holds.contains(&(tenant.to_owned(), id.clone())) {
                    proof {
                        assert forall|x: Seq<char>| #[trigger]
                            all.contains(x) && st.holds.contains_key((t, x)) implies !PlaceKey::precedes(
                            place((t, x), st.current[(t, x)]),
                            place((t, id@), st.current[(t, id@)]),
                        ) by {
                            let px = place((t, x), st.current[(t, x)]);
                            assert(st.by_subject.contains_key(px));
                            let j = choose|j: int| 0 <= j < e.len() && (#[trigger] e[j]).0 == px;
                            PlaceKey::lemma_irreflexive(px);
                            if PlaceKey::precedes(px, e[i as int].0) {
                                if j < i {
                                    assert(ids@.contains_key(e[j].0.1.1.1.1));
                                } else {
                                    assert(PlaceKey::precedes(e[i as int].0, e[j].0));
                                    PlaceKey::lemma_transitive(px, e[i as int].0, px);
                                }
                            }
                        }
                        assert(first_held_of_subject(st, t, subject@, id@));
                    }
                    return Err(
                        StoreError::Backend(join3("memory '", &id, "' is under legal hold")),
                    );
                }
                ids.insert(id, ());
            }
            i = i + 1;
        }
        proof {
            assert forall|id: Seq<char>| all.contains(id) implies ids@.contains_key(id) by {
                let p = place((t, id), st.current[(t, id)]);
                assert(st.by_subject.contains_key(p));
                let j = choose|j: int| 0 <= j < e.len() && (#[trigger] e[j]).0 == p;
                assert(ids@.contains_key(e[j].0.1.1.1.1));
            }
            assert(ids@.dom() =~= all);
            lemma_subject_forgotten_wf(st, t, subject@);
        }
        self.erase(tenant, &ids);
        self.edges.drop_where(&InTo { tenant, ids: &ids });
        self.back_edges.drop_where(&OutOf { tenant, ids: &ids });
        proof {
            let after = subject_forgotten(st, t, subject@);
            assert(self@.edges =~= after.edges);
            assert(self@.back_edges =~= after.back_edges);
            assert(self@ =~= after);
        }
        let count = ids.len();
        proof {
            lemma_keys_counted::<String, ()>(ids.entries());
        }
        Ok(count)
    }

    /// Whether a believed memory has ended by `at`.
    fn has_ended(&self, tenant: &str, id: &String, item: &MemoryItem, at: Instant) -> (b: bool)
        requires
            item@ == self@.believed((tenant@, id@)),
        ensures
            b == ended(self@, (tenant@, id@), at),
    {
        let window = match self.access.get(&(tenant.to_owned(), id.clone())) {
            Some(end) => Instant::at_second(*end).is_no_later(at),
            None => false,
        };
        let ceiling = match item.expires_at {
            Some(end) => end.is_no_later(at),
            None => false,
        };
        window || ceiling
    }

    /// Erases what has outlived its ceiling or its window, except what a hold
    /// protects.
    pub fn sweep_expired(&mut self, tenant: &str, at: Instant) -> (n: usize)
        requires
            old(self)@.wf(),
        ensures
            final(self)@.wf(),
            n == expired_set(old(self)@, tenant@, at).len(),
            final(self)@ == erased(
                old(self)@,
                tenant@,
                expired_set(old(self)@, tenant@, at),
            ),
    {
        let ghost st = self@;
        let ghost t = tenant@;
        let ghost all = expired_set(st, t, at);
        let mut ids: Table<String, ()> = Table::new();
        let n = self.current.len();
        let ghost e = self.current.entries();
        let mut i: usize = 0;
        while i < n
            invariant
                i <= n,
                n == e.len(),
                e == self.current.entries(),
                st == self@,
                st.wf(),
                t == tenant@,
                all == expired_set(st, t, at),
                forall|j: int|
                    0 <= j < n ==> st.current.contains_key((#[trigger] e[j]).0)
                        && st.current[e[j].0] == e[j].1,
                forall|id: Seq<char>| #[trigger] ids@.contains_key(id) ==> all.contains(id),
                forall|j: int|
                    0 <= j < i && (#[trigger] e[j]).0.0 == t && all.contains(e[j].0.1)
                        ==> ids@.contains_key(e[j].0.1),
            decreases n - i,
        {
            let k = self.current.key_at(i);
            let row = self.current.row_at(i);
            assert(st.current.contains_key(e[i as int].0));
            if same(&k.0, tenant) && !self.holds.contains(k) {
                match self.items.get(&(tenant.to_owned(), (k.1.clone(), row.version))) {
                    Some(item) => {
                        if self.has_ended(tenant, &k.1, item, at) {
                            ids.insert(k.1.clone(), ());
                        }
                    },
                    None => {},
                }
            }
            i = i + 1;
        }
        proof {
            assert forall|id: Seq<char>| all.contains(id) implies ids@.contains_key(id) by {
                assert(self.current@.contains_key((t, id)));
                assert(has_key(e, (t, id)));
                let j = choose|j: int| 0 <= j < e.len() && (#[trigger] e[j]).0 == (t, id);
                assert(ids@.contains_key(e[j].0.1));
            }
            assert(ids@.dom() =~= all);
            lemma_erased_wf(st, t, all);
        }
        self.erase(tenant, &ids);
        let count = ids.len();
        proof {
            lemma_keys_counted::<String, ()>(ids.entries());
        }
        count
    }

    /// Protects a memory from every erasure, or lifts the protection.
    pub fn set_legal_hold(&mut self, tenant: &str, id: &str, held: bool) -> (r: Result<
        (),
        StoreError,
    >)
        requires
            old(self)@.wf(),
        ensures
            final(self)@.wf(),
            match hold_refusal(old(self)@, tenant@, id@, held) {
                Some(why) => r matches Err(e) && e@ == why && final(self)@ == old(self)@,
                None => r is Ok && final(self)@ == hold_set(old(self)@, tenant@, id@, held),
            },
    {
        let ghost st = self@;
        let name = (tenant.to_owned(), id.to_owned());
        if held && !self.current.contains(&name) {
            return Err(StoreError::Backend(join3("cannot hold missing memory '", id, "'")));
        }
        if held {
            self.holds.insert(name, ());
        } else {
            let _ = self.holds.remove(&name);
        }
        proof {
            assert(self@ =~= hold_set(st, tenant@, id@, held));
            assert(forall|nm: Name| self@.believed(nm) == st.believed(nm));
            assert(self@.mirrored()) by {
                assert forall|k: Link|
                    #![trigger self@.edges.contains_key(k)]
                    #![trigger self@.back_edges.contains_key(turned(k))]
                    self@.edges.contains_key(k) <==> self@.back_edges.contains_key(turned(k)) by {
                    assert(st.edges.contains_key(k) <==> st.back_edges.contains_key(turned(k)));
                }
            }
        }
        Ok(())
    }

    /// Whether a memory is under legal hold.
    pub fn legal_hold(&self, tenant: &str, id: &str) -> (b: bool)
        ensures
            b == is_held(self@, tenant@, id@),
    {
        self.holds.contains(&(tenant.to_owned(), id.to_owned()))
    }

    /// One version of a memory, whether or not it is believed now.
    pub fn version(&self, tenant: &str, id: &str, version: u64) -> (r: Option<MemoryItem>)
        ensures
            version_of(self@, tenant@, id@, version) == match r {
                Some(item) => Some(item@),
                None => None,
            },
    {
        match self.items.get(&(tenant.to_owned(), (id.to_owned(), version))) {
            Some(item) => Some(item.twin()),
            None => None,
        }
    }

    /// Renews the windows of memories that were read at `at`. A window only
    /// ever moves later.
    pub fn touch(&mut self, tenant: &str, ids: &Vec<String>, at: Instant)
        requires
            old(self)@.wf(),
        ensures
            final(self)@.wf(),
            final(self)@ == (MemoryState {
                access: touched_windows(
                    old(self)@,
                    tenant@,
                    ids@,
                    ids@.len() as int,
                    at.secs,
                ),
                ..old(self)@
            }),
    {
        let ghost st = self@;
        let mut i: usize = 0;
        proof {
            assert(touched_windows(st, tenant@, ids@, 0, at.secs) =~= st.access);
        }
        while i < ids.len()
            invariant
                i <= ids@.len(),
                st.wf(),
                self@ == (MemoryState {
                    access: touched_windows(st, tenant@, ids@, i as int, at.secs),
                    ..st
                }),
            decreases ids@.len() - i,
        {
            let id = &ids[i];
            let ghost name = (tenant@, id@);
            let ghost before = self@;
            let window = match self.current.get(&(tenant.to_owned(), id.clone())) {
                Some(row) => match self.items.get(
                    &(tenant.to_owned(), (id.clone(), row.version)),
                ) {
                    Some(item) => item.access_retention_seconds,
                    None => None,
                },
                None => None,
            };
            assert(window is Some ==> st.current.contains_key(name) && st.believed(
                name,
            ).access_retention_seconds == window);
            match window {
                Some(w) => {
                    self.slide(tenant, id, at.secs, w);
                },
                None => {},
            }
            proof {
                let after = touched_windows(st, tenant@, ids@, i + 1, at.secs);
                assert forall|k: Name| renews(st, tenant@, ids@, i + 1, k) == (renews(
                    st,
                    tenant@,
                    ids@,
                    i as int,
                    k,
                ) || (k == name && window is Some)) by {
                    if k == name && window is Some {
                        assert(ids@[i as int]@ == k.1);
                    }
                    if renews(st, tenant@, ids@, i + 1, k) && !renews(
                        st,
                        tenant@,
                        ids@,
                        i as int,
                        k,
                    ) {
                        let j = choose|j: int| 0 <= j < i + 1 && (#[trigger] ids@[j])@ == k.1;
                        assert(j == i);
                    }
                }
                assert(self@.access =~= after);
            }
            i = i + 1;
        }
        proof {
            assert(forall|nm: Name| self@.believed(nm) == st.believed(nm));
            assert(self@.mirrored()) by {
                assert(st.mirrored());
            }
        }
    }

    /// The ids believed about a subject, in order. Unbounded: this is what an
    /// erasure enumerates.
    pub fn subject_ids(&self, tenant: &str, subject: &str) -> (out: Vec<String>)
        requires
            self@.wf(),
        ensures
            forall|i: int, j: int|
                0 <= i < j < out@.len() ==> text_before((#[trigger] out@[i])@, (
                #[trigger] out@[j])@),
            forall|i: int|
                0 <= i < out@.len() ==> subject_set(self@, tenant@, subject@).contains(
                    (#[trigger] out@[i])@,
                ),
            forall|id: Seq<char>| #[trigger]
                subject_set(self@, tenant@, subject@).contains(id) ==> exists|i: int|
                    0 <= i < out@.len() && (#[trigger] out@[i])@ == id,
    {
        let ghost st = self@;
        let ghost t = tenant@;
        let ghost all = subject_set(st, t, subject@);
        let mut ids: Table<String, ()> = Table::new();
        let n = self.by_subject.len();
        let ghost e = self.by_subject.entries();
        let mut i: usize = 0;
        while i < n
            invariant
                i <= n,
                n == e.len(),
                e == self.by_subject.entries(),
                st == self@,
                st.wf(),
                t == tenant@,
                all == subject_set(st, t, subject@),
                forall|j: int| 0 <= j < n ==> st.by_subject.contains_key((#[trigger] e[j]).0),
                forall|id: Seq<char>| #[trigger] ids@.contains_key(id) ==> all.contains(id),
                forall|j: int|
                    0 <= j < i && (#[trigger] e[j]).0.0 == t && e[j].0.1.0 == subject@
                        ==> ids@.contains_key(e[j].0.1.1.1.1),
            decreases n - i,
        {
            let k = self.by_subject.key_at(i);
            assert(st.by_subject.contains_key(e[i as int].0));
            if same(&k.0, tenant) && same(&k.1.0, subject) {
                ids.insert(k.1.1.1.1.clone(), ());
            }
            i = i + 1;
        }
        proof {
            assert forall|id: Seq<char>| all.contains(id) implies ids@.contains_key(id) by {
                let p = place((t, id), st.current[(t, id)]);
                assert(st.by_subject.contains_key(p));
                let j = choose|j: int| 0 <= j < e.len() && (#[trigger] e[j]).0 == p;
                assert(ids@.contains_key(e[j].0.1.1.1.1));
            }
        }
        let mut out: Vec<String> = Vec::new();
        let m = ids.len();
        let ghost f = ids.entries();
        let mut i: usize = 0;
        while i < m
            invariant
                i <= m,
                m == f.len(),
                f == ids.entries(),
                out@.len() == i,
                forall|j: int| 0 <= j < i ==> (#[trigger] out@[j])@ == f[j].0,
            decreases m - i,
        {
            out.push(ids.key_at(i).clone());
            i = i + 1;
        }
        proof {
            assert forall|a: int, b: int| 0 <= a < b < out@.len() implies text_before(
                (#[trigger] out@[a])@,
                (#[trigger] out@[b])@,
            ) by {
                assert(String::precedes(f[a].0, f[b].0));
            }
            assert forall|a: int| 0 <= a < out@.len() implies all.contains(
                (#[trigger] out@[a])@,
            ) by {
                assert(ids@.contains_key(f[a].0));
            }
            assert forall|id: Seq<char>| #[trigger] all.contains(id) implies exists|a: int|
                0 <= a < out@.len() && (#[trigger] out@[a])@ == id by {
                assert(ids@.contains_key(id));
                let j = choose|j: int| 0 <= j < f.len() && (#[trigger] f[j]).0 == id;
                assert(out@[j]@ == id);
            }
        }
        out
    }

    /// The current versions in the scope of a recall, by standing.
    fn ranked(&self, tenant: &str, q: &Recall) -> (ranked: Table<(u64, (Newest, String)), u64>)
        requires
            self@.wf(),
        ensures
            forall|k: (u64, (i64, Seq<char>))| #[trigger]
                ranked@.contains_key(k) <==> candidate(self@, tenant@, *q, k.1.1) && k == standing(
                    self@,
                    tenant@,
                    k.1.1,
                ),
            forall|k: (u64, (i64, Seq<char>))| #[trigger]
                ranked@.contains_key(k) ==> ranked@[k] == self@.current[(tenant@, k.1.1)].version,
    {
        let ghost st = self@;
        let ghost t = tenant@;
        let mut ranked: Table<(u64, (Newest, String)), u64> = Table::new();
        let n = self.by_subject.len();
        let ghost e = self.by_subject.entries();
        let mut i: usize = 0;
        while i < n
            invariant
                i <= n,
                n == e.len(),
                e == self.by_subject.entries(),
                st == self@,
                st.wf(),
                t == tenant@,
                forall|j: int|
                    0 <= j < n ==> st.by_subject.contains_key((#[trigger] e[j]).0)
                        && st.by_subject[e[j].0] == e[j].1,
                forall|k: (u64, (i64, Seq<char>))| #[trigger]
                    ranked@.contains_key(k) ==> candidate(st, t, *q, k.1.1) && k == standing(
                        st,
                        t,
                        k.1.1,
                    ) && ranked@[k] == st.current[(t, k.1.1)].version,
                forall|j: int|
                    0 <= j < i && (#[trigger] e[j]).0.0 == t && candidate(
                        st,
                        t,
                        *q,
                        e[j].0.1.1.1.1,
                    ) ==> ranked@.contains_key(standing(st, t, e[j].0.1.1.1.1)),
            decreases n - i,
        {
            let k = self.by_subject.key_at(i);
            let row = self.by_subject.row_at(i);
            assert(st.by_subject.contains_key(e[i as int].0));
            let fits = match &q.purpose {
                Some(p) => k.1.1.0 == *p,
                None => true,
            };
            if same(&k.0, tenant) && k.1.0 == q.subject && fits {
                ranked.insert((row.1, (Newest(k.1.1.1.0.0), k.1.1.1.1.clone())), row.0);
            }
            i = i + 1;
        }
        proof {
            assert forall|k: (u64, (i64, Seq<char>))|
                candidate(st, t, *q, k.1.1) && k == standing(
                    st,
                    t,
                    k.1.1,
                ) implies #[trigger] ranked@.contains_key(k) by {
                let p = place((t, k.1.1), st.current[(t, k.1.1)]);
                assert(st.by_subject.contains_key(p));
                assert(has_key(e, p));
                let j = choose|j: int| 0 <= j < e.len() && (#[trigger] e[j]).0 == p;
                assert(ranked@.contains_key(standing(st, t, e[j].0.1.1.1.1)));
            }
        }
        ranked
    }

    /// Answers a recall: the most trusted first, the newest first among equals,
    /// cut at the limit. Trust leads, so that untrusted writes cannot crowd a
    /// trusted memory out of a bounded answer.
    pub fn recall(&self, tenant: &str, q: &Recall) -> (out: Vec<MemoryItem>)
        requires
            self@.wf(),
        ensures
            recalled(self@, tenant@, *q, items_of(out@)),
    {
        let ghost st = self@;
        let ghost t = tenant@;
        let ranked = self.ranked(tenant, q);
        let n = ranked.len();
        let ghost e = ranked.entries();
        let mut out: Vec<MemoryItem> = Vec::new();
        let mut i: usize = 0;
        while i < n && out.len() < q.limit
            invariant
                i <= n,
                n == e.len(),
                e == ranked.entries(),
                st == self@,
                st.wf(),
                t == tenant@,
                in_order::<(u64, (Newest, String)), u64>(e),
                forall|j: int|
                    0 <= j < n ==> ranked@.contains_key((#[trigger] e[j]).0) && ranked@[e[j].0]
                        == e[j].1,
                forall|k: (u64, (i64, Seq<char>))| #[trigger]
                    ranked@.contains_key(k) <==> candidate(st, t, *q, k.1.1) && k == standing(
                        st,
                        t,
                        k.1.1,
                    ),
                forall|k: (u64, (i64, Seq<char>))| #[trigger]
                    ranked@.contains_key(k) ==> ranked@[k] == st.current[(t, k.1.1)].version,
                out@.len() <= q.limit,
                forall|j: int|
                    0 <= j < out@.len() ==> wanted(st, t, *q, (#[trigger] out@[j])@.id)
                        && out@[j]@ == st.believed((t, out@[j]@.id)),
                forall|j: int, m: int|
                    0 <= j < out@.len() && i <= m < n ==> better(
                        standing(st, t, (#[trigger] out@[j])@.id),
                        (#[trigger] e[m]).0,
                    ),
                forall|a: int, b: int|
                    0 <= a < b < out@.len() ==> better(
                        standing(st, t, (#[trigger] out@[a])@.id),
                        standing(st, t, (#[trigger] out@[b])@.id),
                    ),
                forall|j: int|
                    0 <= j < i && wanted(st, t, *q, (#[trigger] e[j]).0.1.1) ==> exists|m: int|
                        0 <= m < out@.len() && (#[trigger] out@[m])@.id == e[j].0.1.1,
            decreases n - i,
        {
            let k = ranked.key_at(i);
            let version = *ranked.row_at(i);
            let ghost id = k@.1.1;
            let ghost before = out@;
            proof {
                assert(ranked@.contains_key(e[i as int].0));
                assert(st.current.contains_key((t, id)));
                assert(st.items.contains_key((t, (id, st.current[(t, id)].version))));
            }
            match self.items.get(&(tenant.to_owned(), (k.1.1.clone(), version))) {
                Some(item) => {
                    let over = match q.as_of {
                        Some(at) => self.has_ended(tenant, &k.1.1, item, at),
                        None => false,
                    };
                    if !over {
                        out.push(item.twin());
                        assert(out@[before.len() as int]@.id == id);
                    }
                },
                None => {},
            }
            proof {
                assert forall|a: int, m: int|
                    0 <= a < out@.len() && i + 1 <= m < n implies better(
                    standing(st, t, (#[trigger] out@[a])@.id),
                    (#[trigger] e[m]).0,
                ) by {
                    if a == before.len() {
                        assert(<(u64, (Newest, String))>::precedes(e[i as int].0, e[m].0));
                    } else {
                        assert(out@[a] == before[a]);
                    }
                }
                assert forall|j: int|
                    0 <= j < i + 1 && wanted(st, t, *q, (#[trigger] e[j]).0.1.1) implies exists|
                    m: int,
                |
                    0 <= m < out@.len() && (#[trigger] out@[m])@.id == e[j].0.1.1 by {
                    if j < i {
                        let m = choose|m: int|
                            0 <= m < before.len() && (#[trigger] before[m])@.id == e[j].0.1.1;
                        assert(out@[m]@.id == e[j].0.1.1);
                    } else {
                        assert(out@[before.len() as int]@.id == id);
                    }
                }
            }
            i = i + 1;
        }
        proof {
            let items = items_of(out@);
            assert forall|id: Seq<char>| #[trigger] wanted(st, t, *q, id) implies (exists|j: int|
                0 <= j < items.len() && (#[trigger] items[j]).id == id) || (items.len() == q.limit
                && forall|j: int|
                0 <= j < items.len() ==> better(
                    standing(st, t, (#[trigger] items[j]).id),
                    standing(st, t, id),
                )) by {
                let k = standing(st, t, id);
                assert(ranked@.contains_key(k));
                assert(has_key(e, k));
                let j = choose|j: int| 0 <= j < e.len() && (#[trigger] e[j]).0 == k;
                if j < i {
                    assert(wanted(st, t, *q, e[j].0.1.1));
                    let m = choose|m: int|
                        0 <= m < out@.len() && (#[trigger] out@[m])@.id == e[j].0.1.1;
                    assert(items[m].id == id);
                } else {
                    assert forall|m: int| 0 <= m < items.len() implies better(
                        standing(st, t, (#[trigger] items[m]).id),
                        standing(st, t, id),
                    ) by {
                        assert(items[m] == out@[m]@);
                        assert(better(standing(st, t, out@[m]@.id), e[j].0));
                    }
                }
            }
            assert forall|a: int, b: int| 0 <= a < b < items.len() implies better(
                standing(st, t, (#[trigger] items[a]).id),
                standing(st, t, (#[trigger] items[b]).id),
            ) by {
                assert(items[a] == out@[a]@ && items[b] == out@[b]@);
            }
        }
        out
    }

    /// What is believed now and was derived from a memory.
    pub fn derivatives(&self, tenant: &str, id: &str) -> (out: Vec<MemoryItem>)
        requires
            self@.wf(),
        ensures
            exists|edges: Seq<Link>| #[trigger]
                derivation(self@, tenant@, id@, items_of(out@), edges),
    {
        let ghost st = self@;
        let ghost t = tenant@;
        let n = self.edges.len();
        let ghost e = self.edges.entries();
        let ghost mut firsts: Seq<Link> = Seq::empty();
        let mut seen: Table<String, ()> = Table::new();
        let mut out: Vec<MemoryItem> = Vec::new();
        let mut i: usize = 0;
        while i < n
            invariant
                i <= n,
                n == e.len(),
                e == self.edges.entries(),
                st == self@,
                st.wf(),
                t == tenant@,
                in_order::<LinkKey, ()>(e),
                forall|j: int| 0 <= j < n ==> st.edges.contains_key((#[trigger] e[j]).0),
                forall|k: Link| #[trigger] st.edges.contains_key(k) ==> has_key(e, k),
                firsts.len() == out@.len(),
                forall|j: int|
                    0 <= j < out@.len() ==> derives(st, t, id@, (#[trigger] out@[j])@.id)
                        && out@[j]@ == st.believed((t, out@[j]@.id)) && first_edge(
                        st,
                        t,
                        id@,
                        out@[j]@.id,
                        firsts[j],
                    ) && seen@.contains_key(out@[j]@.id),
                forall|x: Seq<char>| #[trigger]
                    seen@.contains_key(x) ==> exists|m: int|
                        0 <= m < out@.len() && (#[trigger] out@[m])@.id == x,
                forall|j: int, m: int|
                    0 <= j < firsts.len() && i <= m < n ==> LinkKey::precedes(
                        #[trigger] firsts[j],
                        (#[trigger] e[m]).0,
                    ),
                forall|a: int, b: int|
                    0 <= a < b < firsts.len() ==> LinkKey::precedes(
                        #[trigger] firsts[a],
                        #[trigger] firsts[b],
                    ),
                forall|j: int|
                    0 <= j < i && (#[trigger] e[j]).0.0 == t && e[j].0.1.0 == id@
                        && st.current.contains_key((t, e[j].0.1.1.1.0)) && st.current[(
                        t,
                        e[j].0.1.1.1.0,
                    )].version == e[j].0.1.1.1.1 ==> seen@.contains_key(e[j].0.1.1.1.0),
            decreases n - i,
        {
            let k = self.edges.key_at(i);
            let ghost kv = k@;
            let ghost before = out@;
            let ghost seen0 = seen@;
            assert(st.edges.contains_key(e[i as int].0));
            if same(&k.0, tenant) && same(&k.1.0, id) {
                let name = (tenant.to_owned(), k.1.1.1.0.clone());
                let live = match self.current.get(&name) {
                    Some(row) => row.version == k.1.1.1.1,
                    None => false,
                };
                if live && !seen.contains(&k.1.1.1.0) {
                    let ghost x = kv.1.1.1.0;
                    assert(st.current.contains_key((t, x)));
                    assert(st.items.contains_key((t, (x, st.current[(t, x)].version))));
                    match self.items.get(&(tenant.to_owned(), (k.1.1.1.0.clone(), k.1.1.1.1))) {
                        Some(item) => {
                            out.push(item.twin());
                            seen.insert(k.1.1.1.0.clone(), ());
                            proof {
                                firsts = firsts.push(kv);
                                assert(covers(Node::Whole(id@), kv.1.0, kv.1.1.0));
                                assert(st.edges.contains_key(
                                    (t, (kv.1.0, (kv.1.1.0, (x, st.current[(t, x)].version)))),
                                ));
                                assert(derives(st, t, id@, x));
                                assert forall|sv: u64|
                                    #[trigger] st.edges.contains_key(
                                        (t, (id@, (sv, (x, st.current[(t, x)].version)))),
                                    ) implies kv.1.1.0 <= sv by {
                                    let k2 = (t, (id@, (sv, (x, st.current[(t, x)].version))));
                                    assert(has_key(e, k2));
                                    let j = choose|j: int|
                                        0 <= j < e.len() && (#[trigger] e[j]).0 == k2;
                                    if j < i {
                                        assert(seen0.contains_key(e[j].0.1.1.1.0));
                                    } else if j > i {
                                        assert(LinkKey::precedes(e[i as int].0, e[j].0));
                                        String::lemma_irreflexive(t);
                                        String::lemma_irreflexive(id@);
                                    }
                                }
                                assert(first_edge(st, t, id@, x, kv));
                                assert(out@[before.len() as int]@.id == x);
                            }
                        },
                        None => {},
                    }
                }
            }
            proof {
                assert forall|x: Seq<char>| #[trigger] seen@.contains_key(x) implies exists|m: int|
                    0 <= m < out@.len() && (#[trigger] out@[m])@.id == x by {
                    if seen0.contains_key(x) {
                        let m = choose|m: int|
                            0 <= m < before.len() && (#[trigger] before[m])@.id == x;
                        assert(out@[m]@.id == x);
                    } else {
                        assert(out@[before.len() as int]@.id == x);
                    }
                }
                assert forall|j: int, m: int|
                    0 <= j < firsts.len() && i + 1 <= m < n implies LinkKey::precedes(
                    #[trigger] firsts[j],
                    (#[trigger] e[m]).0,
                ) by {
                    assert(LinkKey::precedes(e[i as int].0, e[m].0));
                }
            }
            i = i + 1;
        }
        proof {
            let items = items_of(out@);
            assert forall|x: Seq<char>| #[trigger] derives(st, t, id@, x) implies exists|m: int|
                0 <= m < items.len() && (#[trigger] items[m]).id == x by {
                let v = st.current[(t, x)].version;
                let (s2, sv) = choose|s2: Seq<char>, sv: u64|
                    covers(Node::Whole(id@), s2, sv) && #[trigger] st.edges.contains_key(
                        (t, (s2, (sv, (x, v)))),
                    );
                let k = (t, (s2, (sv, (x, v))));
                assert(has_key(e, k));
                let j = choose|j: int| 0 <= j < e.len() && (#[trigger] e[j]).0 == k;
                assert(seen@.contains_key(e[j].0.1.1.1.0));
                let m = choose|m: int| 0 <= m < out@.len() && (#[trigger] out@[m])@.id == x;
                assert(items[m].id == x);
            }
            assert forall|j: int| 0 <= j < items.len() implies derives(
                st,
                t,
                id@,
                (#[trigger] items[j]).id,
            ) && items[j] == st.believed((t, items[j].id)) && first_edge(
                st,
                t,
                id@,
                items[j].id,
                firsts[j],
            ) by {
                assert(items[j] == out@[j]@);
            }
            assert(derivation(st, t, id@, items, firsts));
        }
        out
    }

    /// Checks that an item may take its id.
    pub fn check_scope(&self, tenant: &str, item: &MemoryItem) -> (r: Result<(), StoreError>)
        ensures
            match r {
                Ok(_) => scope_refusal(self@, tenant@, item@) is None,
                Err(e) => scope_refusal(self@, tenant@, item@) == Some(e@),
            },
    {
        let name = (tenant.to_owned(), item.id.clone());
        match self.current.get(&name) {
            None => {
                if self.forgotten.contains(&name) {
                    return Err(
                        StoreError::Backend(
                            join3("memory id '", &item.id, "' was forgotten and cannot be reused"),
                        ),
                    );
                }
            },
            Some(row) => {
                if row.subject != item.subject || row.purpose != item.purpose {
                    let mut text = join5(
                        "memory id '",
                        &item.id,
                        "' is scoped to subject '",
                        &row.subject,
                        "' and purpose '",
                    );
                    text.append(&row.purpose);
                    text.append("'; use a new id instead of moving it to subject '");
                    text.append(&item.subject);
                    text.append("' and purpose '");
                    text.append(&item.purpose);
                    text.append("'");
                    return Err(StoreError::Backend(text));
                }
            },
        }
        Ok(())
    }

    /// Checks that one source of an item is there, unchanged and of its subject.
    pub fn check_source(&self, tenant: &str, item: &MemoryItem, i: usize) -> (r: Result<
        (),
        StoreError,
    >)
        requires
            i < item@.derived_from.len(),
        ensures
            match r {
                Ok(_) => source_refusal(self@, tenant@, item@, i as int) is None,
                Err(e) => source_refusal(self@, tenant@, item@, i as int) == Some(e@),
            },
    {
        let source = &item.derived_from[i];
        assert(item@.derived_from[i as int] == source@);
        let k = (tenant.to_owned(), (source.id.clone(), source.version));
        let why = match self.items.get(&k) {
            None => Some(
                join5(
                    "derived memory '",
                    &item.id,
                    "' names missing source '",
                    &source.id,
                    &join("' version ", &dec(source.version)),
                ),
            ),
            Some(found) => if found.digest != source.digest {
                Some(
                    join5(
                        "derived memory '",
                        &item.id,
                        "' names a changed source '",
                        &source.id,
                        &join("' version ", &dec(source.version)),
                    ),
                )
            } else if found.subject != item.subject {
                Some(
                    join5(
                        "derived memory '",
                        &item.id,
                        "' must stay in source subject '",
                        &found.subject,
                        &join3("' rather than '", &item.subject, "'"),
                    ),
                )
            } else {
                None
            },
        };
        match why {
            Some(text) => Err(StoreError::Backend(text)),
            None => Ok(()),
        }
    }

    /// Why a source of `item` cannot be derived from, if one cannot.
    fn check_sources(&self, tenant: &str, item: &MemoryItem) -> (r: Result<(), StoreError>)
        ensures
            match r {
                Ok(()) => sources_refusal(
                    self@,
                    tenant@,
                    item@,
                    item@.derived_from.len() as int,
                ) is None,
                Err(e) => sources_refusal(
                    self@,
                    tenant@,
                    item@,
                    item@.derived_from.len() as int,
                ) == Some(e@),
            },
    {
        let mut i: usize = 0;
        while i < item.derived_from.len()
            invariant
                i <= item.derived_from@.len(),
                sources_refusal(self@, tenant@, item@, i as int) is None,
            decreases item.derived_from@.len() - i,
        {
            if let Err(e) = self.check_source(tenant, item, i) {
                proof {
                    lemma_first_refusal(
                        self@,
                        tenant@,
                        item@,
                        i as int,
                        item@.derived_from.len() as int,
                    );
                }
                return Err(e);
            }
            i = i + 1;
        }
        Ok(())
    }

    /// Opens or renews the sliding window of an id.
    fn slide(&mut self, tenant: &str, id: &str, at: i64, window: u64)
        ensures
            final(self)@ == (MemoryState {
                access: slid(old(self)@.access, (tenant@, id@), at, window),
                ..old(self)@
            }),
    {
        let span: i64 = if window > i64::MAX as u64 {
            i64::MAX
        } else {
            window as i64
        };
        let expiry: i64 = if at > 0 && span > i64::MAX - at {
            i64::MAX
        } else {
            at + span
        };
        assert(expiry == later(at, window));
        let k = (tenant.to_owned(), id.to_owned());
        let renew = match self.access.get(&k) {
            Some(prior) => expiry > *prior,
            None => true,
        };
        if renew {
            self.access.insert(k, expiry);
        }
    }

    /// Stores the next version of a memory.
    ///
    /// A forgotten id is never reused, an id never moves to another scope, and
    /// every source must still be there, unchanged and of the same subject.
    pub fn remember(&mut self, tenant: &str, item: MemoryItem) -> (r: Result<u64, StoreError>)
        requires
            old(self)@.wf(),
        ensures
            final(self)@.wf(),
            match remember_refusal(old(self)@, tenant@, item@) {
                Some(why) => r matches Err(e) && e@ == why && final(self)@ == old(self)@,
                None => r == Ok::<u64, StoreError>(next_version(old(self)@, (tenant@, item@.id)))
                    && final(self)@ == remembered(old(self)@, tenant@, item@),
            },
    {
        let ghost st = self@;
        let ghost it = item@;
        let ghost name = (tenant@, item@.id);
        let name_key = (tenant.to_owned(), item.id.clone());
        let previous = match self.current.get(&name_key) {
            Some(row) => Some(
                CurrentRow {
                    subject: row.subject.clone(),
                    purpose: row.purpose.clone(),
                    created_at: row.created_at,
                    version: row.version,
                },
            ),
            None => None,
        };
        match self.check_scope(tenant, &item) {
            Ok(()) => {},
            Err(e) => {
                return Err(e);
            },
        }
        match self.check_sources(tenant, &item) {
            Ok(()) => {},
            Err(e) => {
                return Err(e);
            },
        }
        let version: u64 = match &previous {
            None => 1,
            Some(row) => {
                if row.version == u64::MAX {
                    return Err(StoreError::Backend("memory version overflow".to_owned()));
                }
                row.version + 1
            },
        };
        let mut item = item;
        item.version = version;
        item.superseded_at = None;
        assert(item@ =~= stored(it, version));

        if let Some(row) = previous {
            let _ = self.by_subject.remove(
                &(
                    tenant.to_owned(),
                    (
                        row.subject.clone(),
                        (row.purpose.clone(), (Newest(row.created_at), item.id.clone())),
                    ),
                ),
            );
            let old_key = (tenant.to_owned(), (item.id.clone(), row.version));
            match self.items.remove(&old_key) {
                Some(was) => {
                    let mut was = was;
                    was.superseded_at = Some(item.created_at);
                    self.items.insert(old_key, was);
                },
                None => {},
            }
        }
        self.current.insert(
            name_key,
            CurrentRow {
                subject: item.subject.clone(),
                purpose: item.purpose.clone(),
                created_at: item.created_at.secs,
                version,
            },
        );
        self.by_subject.insert(
            (
                tenant.to_owned(),
                (
                    item.subject.clone(),
                    (item.purpose.clone(), (Newest(item.created_at.secs), item.id.clone())),
                ),
            ),
            (version, trust_rank(item.trust)),
        );
        let mut i: usize = 0;
        while i < item.derived_from.len()
            invariant
                i <= item.derived_from@.len(),
                item@ == stored(it, version),
                self.edges@ == linked(
                    st.edges,
                    tenant@,
                    it.derived_from,
                    it.id,
                    version,
                    i as int,
                ),
                self.back_edges@ == back_linked(
                    st.back_edges,
                    tenant@,
                    it.derived_from,
                    it.id,
                    version,
                    i as int,
                ),
                self@ == (MemoryState {
                    edges: self.edges@,
                    back_edges: self.back_edges@,
                    ..before_links(st, tenant@, it)
                }),
            decreases item.derived_from@.len() - i,
        {
            let source = &item.derived_from[i];
            assert(it.derived_from[i as int] == source@);
            self.edges.insert(
                (
                    tenant.to_owned(),
                    (source.id.clone(), (source.version, (item.id.clone(), version))),
                ),
                (),
            );
            self.back_edges.insert(
                (
                    tenant.to_owned(),
                    (item.id.clone(), (version, (source.id.clone(), source.version))),
                ),
                (),
            );
            i = i + 1;
        }
        match item.access_retention_seconds {
            Some(window) => {
                let id = item.id.clone();
                self.slide(tenant, &id, item.created_at.secs, window);
            },
            None => {
                let _ = self.access.remove(&(tenant.to_owned(), item.id.clone()));
            },
        }
        self.items.insert((tenant.to_owned(), (item.id.clone(), version)), item);
        proof {
            lemma_remembered_wf(st, tenant@, it);
        }
        Ok(version)
    }
}

// ── Checking tables that come from outside ──────────────────────────────────

/// Whether a row of the scope index is where and what it should be.
spec fn rightly_placed(st: MemoryState, k: Place) -> bool {
    let name = place_name(k);
    &&& st.current.contains_key(name)
    &&& k == place(name, st.current[name])
    &&& st.by_subject[k] == (st.current[name].version, rank_of(st.believed(name).trust))
}

/// Whether the current version of every one of these ids is there, or is not.
spec fn all_believed(st: MemoryState, names: Set<Name>, believed: bool) -> bool {
    forall|name: Name| #[trigger]
        names.contains(name) ==> st.current.contains_key(name) == believed
}

/// Whether a current entry has its version.
spec fn has_its_version(st: MemoryState, name: Name) -> bool {
    &&& st.items.contains_key((name.0, (name.1, st.current[name].version)))
    &&& st.believed(name).created_at.secs == st.current[name].created_at
}

/// Whether a version has a current entry of its scope that is no older.
spec fn rightly_versioned(st: MemoryState, k: VersionName) -> bool {
    let name = version_name(k);
    &&& st.current.contains_key(name)
    &&& 1 <= k.1.1 <= st.current[name].version
    &&& st.items[k].id == k.1.0
    &&& st.items[k].version == k.1.1
    &&& st.items[k].subject == st.current[name].subject
    &&& st.items[k].purpose == st.current[name].purpose
}

impl MemoryBook {
    /// Whether the two edge tables are one index.
    fn check_mirrored(&self) -> (b: bool)
        ensures
            b == self@.mirrored(),
    {
        let ghost st = self@;
        let n = self.edges.len();
        let ghost e = self.edges.entries();
        let mut i: usize = 0;
        while i < n
            invariant
                i <= n,
                n == e.len(),
                e == self.edges.entries(),
                st == self@,
                forall|j: int| 0 <= j < n ==> st.edges.contains_key((#[trigger] e[j]).0),
                forall|j: int| 0 <= j < i ==> st.back_edges.contains_key(turned((#[trigger] e[j]).0)),
            decreases n - i,
        {
            let k = self.edges.key_at(i);
            let ghost kv = e[i as int].0;
            assert(st.edges.contains_key(kv));
            let t = (k.0.clone(), (k.1.1.1.0.clone(), (k.1.1.1.1, (k.1.0.clone(), k.1.1.0))));
            assert(t@ == turned(kv));
            if !self.back_edges.contains(&t) {
                return false;
            }
            i = i + 1;
        }
        let m = self.back_edges.len();
        let ghost f = self.back_edges.entries();
        let mut i: usize = 0;
        while i < m
            invariant
                i <= m,
                m == f.len(),
                f == self.back_edges.entries(),
                st == self@,
                forall|j: int| 0 <= j < m ==> st.back_edges.contains_key((#[trigger] f[j]).0),
                forall|j: int| 0 <= j < i ==> st.edges.contains_key(turned((#[trigger] f[j]).0)),
            decreases m - i,
        {
            let k = self.back_edges.key_at(i);
            let ghost kv = f[i as int].0;
            assert(st.back_edges.contains_key(kv));
            let t = (k.0.clone(), (k.1.1.1.0.clone(), (k.1.1.1.1, (k.1.0.clone(), k.1.1.0))));
            assert(t@ == turned(kv));
            if !self.edges.contains(&t) {
                assert(turned(turned(kv)) == kv);
                return false;
            }
            i = i + 1;
        }
        proof {
            assert forall|k: Link| st.edges.contains_key(k) <==> #[trigger] st.back_edges.contains_key(
                turned(k),
            ) by {
                if st.edges.contains_key(k) {
                    assert(has_key(e, k));
                    let j = choose|j: int| 0 <= j < e.len() && (#[trigger] e[j]).0 == k;
                    assert(st.back_edges.contains_key(turned(e[j].0)));
                }
                if st.back_edges.contains_key(turned(k)) {
                    assert(has_key(f, turned(k)));
                    let j = choose|j: int| 0 <= j < f.len() && (#[trigger] f[j]).0 == turned(k);
                    assert(st.edges.contains_key(turned(f[j].0)));
                    assert(turned(turned(k)) == k);
                }
            }
        }
        true
    }

    /// Whether the scope index holds exactly the current versions.
    fn check_indexed(&self) -> (b: bool)
        requires
            self@.versioned(),
        ensures
            b == self@.indexed(),
    {
        let ghost st = self@;
        let n = self.by_subject.len();
        let ghost e = self.by_subject.entries();
        let mut i: usize = 0;
        while i < n
            invariant
                i <= n,
                n == e.len(),
                e == self.by_subject.entries(),
                st == self@,
                st.versioned(),
                forall|j: int|
                    0 <= j < n ==> st.by_subject.contains_key((#[trigger] e[j]).0)
                        && st.by_subject[e[j].0] == e[j].1,
                forall|j: int| 0 <= j < i ==> rightly_placed(st, (#[trigger] e[j]).0),
            decreases n - i,
        {
            let k = self.by_subject.key_at(i);
            let row = self.by_subject.row_at(i);
            let ghost kv = e[i as int].0;
            assert(st.by_subject.contains_key(kv));
            let name = (k.0.clone(), k.1.1.1.1.clone());
            assert(name@ == place_name(kv));
            let right = match self.current.get(&name) {
                Some(cur) => match self.items.get(&(name.0.clone(), (name.1.clone(), cur.version))) {
                    Some(item) => same(&k.1.0, &cur.subject) && same(&k.1.1.0, &cur.purpose)
                        && k.1.1.1.0.0 == cur.created_at && row.0 == cur.version && row.1
                        == trust_rank(item.trust),
                    None => false,
                },
                None => false,
            };
            assert(right == rightly_placed(st, kv));
            if !right {
                return false;
            }
            i = i + 1;
        }
        let m = self.current.len();
        let ghost f = self.current.entries();
        let mut i: usize = 0;
        while i < m
            invariant
                i <= m,
                m == f.len(),
                f == self.current.entries(),
                st == self@,
                forall|j: int|
                    0 <= j < m ==> st.current.contains_key((#[trigger] f[j]).0)
                        && st.current[f[j].0] == f[j].1,
                forall|j: int|
                    0 <= j < i ==> st.by_subject.contains_key(
                        place((#[trigger] f[j]).0, st.current[f[j].0]),
                    ),
            decreases m - i,
        {
            let k = self.current.key_at(i);
            let row = self.current.row_at(i);
            let ghost kv = f[i as int].0;
            assert(st.current.contains_key(kv));
            let at = (
                k.0.clone(),
                (row.subject.clone(), (row.purpose.clone(), (Newest(row.created_at), k.1.clone()))),
            );
            assert(at@ == place(kv, st.current[kv]));
            if !self.by_subject.contains(&at) {
                return false;
            }
            i = i + 1;
        }
        proof {
            assert forall|k: Place| #[trigger] st.by_subject.contains_key(k) implies rightly_placed(
                st,
                k,
            ) by {
                assert(has_key(e, k));
                let j = choose|j: int| 0 <= j < e.len() && (#[trigger] e[j]).0 == k;
                assert(rightly_placed(st, e[j].0));
            }
            assert forall|name: Name| #[trigger]
                st.current.contains_key(name) implies st.by_subject.contains_key(
                place(name, st.current[name]),
            ) by {
                assert(has_key(f, name));
                let j = choose|j: int| 0 <= j < f.len() && (#[trigger] f[j]).0 == name;
                assert(st.by_subject.contains_key(place(f[j].0, st.current[f[j].0])));
            }
        }
        true
    }

    /// Whether versions and current entries belong to each other.
    fn check_versioned(&self) -> (b: bool)
        ensures
            b == self@.versioned(),
    {
        let ghost st = self@;
        let n = self.current.len();
        let ghost e = self.current.entries();
        let mut i: usize = 0;
        while i < n
            invariant
                i <= n,
                n == e.len(),
                e == self.current.entries(),
                st == self@,
                forall|j: int|
                    0 <= j < n ==> st.current.contains_key((#[trigger] e[j]).0)
                        && st.current[e[j].0] == e[j].1,
                forall|j: int| 0 <= j < i ==> has_its_version(st, (#[trigger] e[j]).0),
            decreases n - i,
        {
            let k = self.current.key_at(i);
            let row = self.current.row_at(i);
            let ghost kv = e[i as int].0;
            assert(st.current.contains_key(kv));
            let right = match self.items.get(&(k.0.clone(), (k.1.clone(), row.version))) {
                Some(item) => item.created_at.secs == row.created_at,
                None => false,
            };
            assert(right == has_its_version(st, kv));
            if !right {
                return false;
            }
            i = i + 1;
        }
        let m = self.items.len();
        let ghost f = self.items.entries();
        let mut i: usize = 0;
        while i < m
            invariant
                i <= m,
                m == f.len(),
                f == self.items.entries(),
                st == self@,
                forall|j: int|
                    0 <= j < m ==> st.items.contains_key((#[trigger] f[j]).0)
                        && st.items[f[j].0] == f[j].1,
                forall|j: int| 0 <= j < i ==> rightly_versioned(st, (#[trigger] f[j]).0),
            decreases m - i,
        {
            let k = self.items.key_at(i);
            let item = self.items.row_at(i);
            let ghost kv = f[i as int].0;
            assert(st.items.contains_key(kv));
            let right = match self.current.get(&(k.0.clone(), k.1.0.clone())) {
                Some(cur) => 1 <= k.1.1 && k.1.1 <= cur.version && same(&item.id, &k.1.0)
                    && item.version == k.1.1 && same(&item.subject, &cur.subject) && same(
                    &item.purpose,
                    &cur.purpose,
                ),
                None => false,
            };
            assert(right == rightly_versioned(st, kv));
            if !right {
                return false;
            }
            i = i + 1;
        }
        proof {
            assert forall|name: Name| #[trigger]
                st.current.contains_key(name) implies has_its_version(st, name) by {
                assert(has_key(e, name));
                let j = choose|j: int| 0 <= j < e.len() && (#[trigger] e[j]).0 == name;
                assert(has_its_version(st, e[j].0));
            }
            assert forall|k: VersionName| #[trigger]
                st.items.contains_key(k) implies rightly_versioned(st, k) by {
                assert(has_key(f, k));
                let j = choose|j: int| 0 <= j < f.len() && (#[trigger] f[j]).0 == k;
                assert(rightly_versioned(st, f[j].0));
            }
        }
        true
    }

    /// Whether every row of a table is, or is not, about a believed id.
    fn check_names<R: View>(&self, t: &Table<(String, String), R>, believed: bool) -> (b: bool)
        ensures
            b == all_believed(self@, t@.dom(), believed),
    {
        let ghost st = self@;
        let n = t.len();
        let ghost e = t.entries();
        let mut i: usize = 0;
        while i < n
            invariant
                i <= n,
                n == e.len(),
                e == t.entries(),
                st == self@,
                forall|j: int| 0 <= j < n ==> t@.contains_key((#[trigger] e[j]).0),
                forall|j: int|
                    0 <= j < i ==> st.current.contains_key((#[trigger] e[j]).0) == believed,
            decreases n - i,
        {
            let k = t.key_at(i);
            let ghost kv = e[i as int].0;
            assert(t@.contains_key(kv));
            if self.current.contains(k) != believed {
                assert(t@.dom().contains(kv));
                return false;
            }
            i = i + 1;
        }
        proof {
            assert forall|name: Name| #[trigger]
                t@.dom().contains(name) implies st.current.contains_key(name) == believed by {
                assert(t@.contains_key(name));
                assert(has_key(e, name));
                let j = choose|j: int| 0 <= j < e.len() && (#[trigger] e[j]).0 == name;
                assert(st.current.contains_key(e[j].0) == believed);
            }
        }
        true
    }

    /// Whether the tables agree with one another. Tables that were read from
    /// outside are checked before anything is asked of them.
    pub fn check(&self) -> (b: bool)
        ensures
            b == self@.wf(),
    {
        let ghost st = self@;
        let erased = self.check_names(&self.forgotten, false);
        let held = self.check_names(&self.holds, true);
        let read = self.check_names(&self.access, true);
        proof {
            if erased && held && read {
                assert forall|name: Name| #[trigger]
                    st.forgotten.contains_key(name) implies !st.current.contains_key(name) by {
                    assert(self.forgotten@.dom().contains(name));
                }
                assert forall|name: Name| #[trigger]
                    st.holds.contains_key(name) implies st.current.contains_key(name) by {
                    assert(self.holds@.dom().contains(name));
                }
                assert forall|name: Name| #[trigger]
                    st.access.contains_key(name) implies st.current.contains_key(name) by {
                    assert(self.access@.dom().contains(name));
                }
            }
            if st.scoped() {
                assert forall|name: Name| #[trigger]
                    self.forgotten@.dom().contains(name) implies !st.current.contains_key(name) by {
                    assert(st.forgotten.contains_key(name));
                }
                assert forall|name: Name| #[trigger]
                    self.holds@.dom().contains(name) implies st.current.contains_key(name) by {
                    assert(st.holds.contains_key(name));
                }
                assert forall|name: Name| #[trigger]
                    self.access@.dom().contains(name) implies st.current.contains_key(name) by {
                    assert(st.access.contains_key(name));
                }
            }
            assert((erased && held && read) == st.scoped());
        }
        self.check_mirrored() && self.check_versioned() && self.check_indexed() && erased && held
            && read
    }
}

} // verus!
