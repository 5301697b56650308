//! Governed memory on a shared database: the locks that a write takes, and the
//! bounds that its columns set.

use vstd::prelude::*;
use vstd::utf8::encode_utf8;

use crate::domain::Instant;
use crate::error::{Refusal, StoreError};
use crate::memory::{
    better, candidate, derives, ended, erased, expired_set, items_of, next_version,
    remember_refusal, remembered, scope_refusal, source_refusal, sources_refusal, standing, wanted,
    ItemModel, MemoryBook, MemoryItem, MemoryState, Name, Recall,
};
use crate::postgres::{recall_limit, version_i64};
use crate::table::{has_key, in_order, text_before, Key, Newest, Table};
use crate::text::{copied, dec, decimal, join5, said, texts};

verus! {

// ── Locks ───────────────────────────────────────────────────────────────────

/// What a lock is called: what it covers, and of which tenant. The tenant's
/// length in bytes stands before it, so that no tenant's name runs on into what
/// follows.
pub open spec fn lock_name(kind: Seq<char>, t: Seq<char>, tail: Seq<char>) -> Seq<char> {
    kind + decimal(encode_utf8(t).len() as int) + ":"@ + t + tail
}

fn lock(kind: &str, tenant: &str, tail: &str) -> (s: String)
    ensures
        s@ == lock_name(kind@, tenant@, tail@),
{
    join5(kind, &dec(tenant.as_bytes().len() as u64), ":", tenant, tail)
}

/// The lock on the derivation graph. Writers share it; what erases takes it
/// alone.
pub fn graph_lock(tenant: &str) -> (s: String)
    ensures
        s@ == lock_name("memory-graph:"@, tenant@, ""@),
{
    lock("memory-graph:", tenant, "")
}

/// The lock on lifecycles: erasures and holds take it one at a time.
pub fn lifecycle_lock(tenant: &str) -> (s: String)
    ensures
        s@ == lock_name("memory-lifecycle:"@, tenant@, ""@),
{
    lock("memory-lifecycle:", tenant, "")
}

/// The lock on a subject. Writers share it; what erases the subject takes it
/// alone.
pub fn subject_lock(tenant: &str, subject: &str) -> (s: String)
    ensures
        s@ == lock_name("memory-subject:"@, tenant@, subject@),
{
    lock("memory-subject:", tenant, subject)
}

/// The lock on an id.
pub fn id_lock(tenant: &str, id: &str) -> (s: String)
    ensures
        s@ == lock_name("memory-id:"@, tenant@, id@),
{
    lock("memory-id:", tenant, id)
}

/// Whether these are the ids that a write of an item concerns: its own and its
/// sources', each once, in order.
pub open spec fn concerned(item: ItemModel, ids: Seq<Seq<char>>) -> bool {
    &&& forall|i: int, j: int|
        0 <= i < j < ids.len() ==> text_before(#[trigger] ids[i], #[trigger] ids[j])
    &&& forall|id: Seq<char>| #[trigger]
        ids.contains(id) <==> id == item.id || exists|i: int|
            0 <= i < item.derived_from.len() && (#[trigger] item.derived_from[i]).id == id
}

/// The ids whose locks a write of an item takes alone, in the order in which it
/// takes them. Two writes that concern the same ids take them in the same order.
pub fn locked_ids(item: &MemoryItem) -> (out: Vec<String>)
    ensures
        concerned(item@, texts(out@)),
{
    let ghost it = item@;
    let mut ids: Table<String, ()> = Table::new();
    ids.insert(item.id.clone(), ());
    let mut i: usize = 0;
    while i < item.derived_from.len()
        invariant
            i <= item.derived_from@.len(),
            it == item@,
            forall|id: Seq<char>| #[trigger]
                ids@.contains_key(id) <==> id == it.id || exists|j: int|
                    0 <= j < i && (#[trigger] it.derived_from[j]).id == id,
        decreases item.derived_from@.len() - i,
    {
        let source = &item.derived_from[i];
        assert(it.derived_from[i as int] == source@);
        let ghost before = ids@;
        ids.insert(source.id.clone(), ());
        proof {
            assert forall|id: Seq<char>| #[trigger]
                ids@.contains_key(id) <==> id == it.id || exists|j: int|
                    0 <= j < i + 1 && (#[trigger] it.derived_from[j]).id == id by {
                if before.contains_key(id) && id != it.id {
                    let j = choose|j: int| 0 <= j < i && (#[trigger] it.derived_from[j]).id == id;
                    assert(0 <= j < i + 1);
                }
                if id == source@.id {
                    assert(it.derived_from[i as int].id == id);
                }
            }
        }
        i = i + 1;
    }
    let n = ids.len();
    let ghost e = ids.entries();
    let mut out: Vec<String> = Vec::new();
    let mut i: usize = 0;
    while i < n
        invariant
            i <= n,
            n == e.len(),
            e == ids.entries(),
            out@.len() == i,
            forall|j: int| 0 <= j < i ==> (#[trigger] out@[j])@ == e[j].0,
        decreases n - i,
    {
        out.push(ids.key_at(i).clone());
        i = i + 1;
    }
    proof {
        let said = texts(out@);
        assert forall|i: int, j: int| 0 <= i < j < said.len() implies text_before(
            #[trigger] said[i],
            #[trigger] said[j],
        ) by {
            assert(out@[i]@ == e[i].0 && out@[j]@ == e[j].0);
            assert(String::precedes(e[i].0, e[j].0));
        }
        assert forall|id: Seq<char>| #[trigger] said.contains(id) == ids@.contains_key(id) by {
            if said.contains(id) {
                let i = choose|i: int| 0 <= i < said.len() && said[i] == id;
                assert(out@[i]@ == e[i].0);
                assert(ids@.contains_key(e[i].0));
            }
            if ids@.contains_key(id) {
                assert(has_key(e, id));
                let i = choose|i: int| 0 <= i < e.len() && (#[trigger] e[i]).0 == id;
                assert(out@[i]@ == e[i].0);
                assert(said[i] == id);
            }
        }
    }
    out
}

/// A lock to take before a change: its name, and whether others may hold it too.
#[derive(Debug)]
pub struct Lock {
    pub name: String,
    pub shared: bool,
}

/// What a [`Lock`] says.
pub struct LockModel {
    pub name: Seq<char>,
    pub shared: bool,
}

impl View for Lock {
    type V = LockModel;

    open spec fn view(&self) -> LockModel {
        LockModel { name: self.name@, shared: self.shared }
    }
}

/// What a list of locks says.
pub open spec fn locks_of(v: Seq<Lock>) -> Seq<LockModel> {
    Seq::new(v.len(), |i: int| v[i]@)
}

pub open spec fn graph_name(t: Seq<char>) -> Seq<char> {
    lock_name("memory-graph:"@, t, ""@)
}

pub open spec fn lifecycle_name(t: Seq<char>) -> Seq<char> {
    lock_name("memory-lifecycle:"@, t, ""@)
}

pub open spec fn subject_name(t: Seq<char>, subject: Seq<char>) -> Seq<char> {
    lock_name("memory-subject:"@, t, subject)
}

pub open spec fn id_name(t: Seq<char>, id: Seq<char>) -> Seq<char> {
    lock_name("memory-id:"@, t, id)
}

/// A lock that is held with others.
pub open spec fn together(name: Seq<char>) -> LockModel {
    LockModel { name, shared: true }
}

/// A lock that is held alone.
pub open spec fn alone(name: Seq<char>) -> LockModel {
    LockModel { name, shared: false }
}

/// What a write of a memory locks, in order: the graph and the subject with
/// other writers, and each id that it concerns alone.
pub open spec fn write_plan(t: Seq<char>, subject: Seq<char>, ids: Seq<Seq<char>>) -> Seq<LockModel> {
    seq![together(graph_name(t)), together(subject_name(t, subject))] + Seq::new(
        ids.len(),
        |i: int| alone(id_name(t, ids[i])),
    )
}

/// What an erasure along derivations locks, in order.
pub open spec fn cascade_plan(t: Seq<char>) -> Seq<LockModel> {
    seq![alone(lifecycle_name(t)), alone(graph_name(t))]
}

/// What the erasure of one memory locks, in order.
pub open spec fn forget_plan(t: Seq<char>, id: Seq<char>) -> Seq<LockModel> {
    seq![alone(lifecycle_name(t)), alone(id_name(t, id))]
}

/// What the erasure of a subject locks, in order.
pub open spec fn subject_plan(t: Seq<char>, subject: Seq<char>) -> Seq<LockModel> {
    seq![alone(lifecycle_name(t)), alone(subject_name(t, subject))]
}

/// What setting a hold locks.
pub open spec fn hold_plan(t: Seq<char>) -> Seq<LockModel> {
    seq![alone(lifecycle_name(t))]
}

fn held_alone(name: String) -> (l: Lock)
    ensures
        l@ == alone(name@),
{
    Lock { name, shared: false }
}

/// What a write of a memory locks, in the order in which it locks it.
pub fn remember_locks(tenant: &str, item: &MemoryItem) -> (locks: Vec<Lock>)
    ensures
        exists|ids: Seq<Seq<char>>| #[trigger]
            concerned(item@, ids) && locks_of(locks@) == write_plan(tenant@, item@.subject, ids),
{
    let ids = locked_ids(item);
    let ghost names = texts(ids@);
    let ghost plan = write_plan(tenant@, item@.subject, names);
    let mut locks: Vec<Lock> = Vec::new();
    locks.push(Lock { name: graph_lock(tenant), shared: true });
    locks.push(Lock { name: subject_lock(tenant, &item.subject), shared: true });
    let mut i: usize = 0;
    while i < ids.len()
        invariant
            i <= ids@.len(),
            names == texts(ids@),
            plan == write_plan(tenant@, item@.subject, names),
            locks@.len() == i + 2,
            forall|j: int| 0 <= j < i + 2 ==> (#[trigger] locks@[j])@ == plan[j],
        decreases ids@.len() - i,
    {
        assert(names[i as int] == ids@[i as int]@);
        locks.push(held_alone(id_lock(tenant, &ids[i])));
        assert(plan[i + 2] == alone(id_name(tenant@, names[i as int])));
        i = i + 1;
    }
    assert(locks_of(locks@) =~= plan);
    assert(concerned(item@, names));
    locks
}

/// What an erasure along derivations locks: it runs alone among what changes
/// lifecycles, and while no memory is written.
pub fn cascade_locks(tenant: &str) -> (locks: Vec<Lock>)
    ensures
        locks_of(locks@) == cascade_plan(tenant@),
{
    let mut locks: Vec<Lock> = Vec::new();
    locks.push(held_alone(lifecycle_lock(tenant)));
    locks.push(held_alone(graph_lock(tenant)));
    assert(locks_of(locks@) =~= cascade_plan(tenant@));
    locks
}

/// What a sweep of expired memories locks. It is an erasure like any other along
/// derivations.
pub fn sweep_locks(tenant: &str) -> (locks: Vec<Lock>)
    ensures
        locks_of(locks@) == cascade_plan(tenant@),
{
    cascade_locks(tenant)
}

/// What the erasure of one memory locks.
pub fn forget_locks(tenant: &str, id: &str) -> (locks: Vec<Lock>)
    ensures
        locks_of(locks@) == forget_plan(tenant@, id@),
{
    let mut locks: Vec<Lock> = Vec::new();
    locks.push(held_alone(lifecycle_lock(tenant)));
    locks.push(held_alone(id_lock(tenant, id)));
    assert(locks_of(locks@) =~= forget_plan(tenant@, id@));
    locks
}

/// What the erasure of a subject locks.
pub fn subject_locks(tenant: &str, subject: &str) -> (locks: Vec<Lock>)
    ensures
        locks_of(locks@) == subject_plan(tenant@, subject@),
{
    let mut locks: Vec<Lock> = Vec::new();
    locks.push(held_alone(lifecycle_lock(tenant)));
    locks.push(held_alone(subject_lock(tenant, subject)));
    assert(locks_of(locks@) =~= subject_plan(tenant@, subject@));
    locks
}

/// What setting a hold locks.
pub fn hold_locks(tenant: &str) -> (locks: Vec<Lock>)
    ensures
        locks_of(locks@) == hold_plan(tenant@),
{
    let mut locks: Vec<Lock> = Vec::new();
    locks.push(held_alone(lifecycle_lock(tenant)));
    assert(locks_of(locks@) =~= hold_plan(tenant@));
    locks
}

/// Whether two changes with these locks cannot run at once: one of them holds
/// alone what the other needs too.
pub open spec fn excluded(a: Seq<LockModel>, b: Seq<LockModel>) -> bool {
    exists|i: int, j: int|
        0 <= i < a.len() && 0 <= j < b.len() && (#[trigger] a[i]).name == (#[trigger] b[j]).name
            && !(a[i].shared && b[j].shared)
}

/// No memory is written while an erasure walks the derivations, none of a
/// subject while the subject is erased, and none that concerns an id while the
/// id is erased or another write concerns it.
pub proof fn law_erasures_exclude_writes(
    t: Seq<char>,
    item: ItemModel,
    ids: Seq<Seq<char>>,
    other: ItemModel,
    others: Seq<Seq<char>>,
    id: Seq<char>,
)
    requires
        concerned(item, ids),
        concerned(other, others),
        ids.contains(id),
        others.contains(id),
    ensures
        excluded(cascade_plan(t), write_plan(t, item.subject, ids)),
        excluded(subject_plan(t, item.subject), write_plan(t, item.subject, ids)),
        excluded(forget_plan(t, id), write_plan(t, item.subject, ids)),
        excluded(write_plan(t, item.subject, ids), write_plan(t, other.subject, others)),
{
    let w = write_plan(t, item.subject, ids);
    let v = write_plan(t, other.subject, others);
    let i = choose|i: int| 0 <= i < ids.len() && ids[i] == id;
    let j = choose|j: int| 0 <= j < others.len() && others[j] == id;
    assert(cascade_plan(t)[1].name == w[0].name);
    assert(subject_plan(t, item.subject)[1].name == w[1].name);
    assert(w[i + 2] == alone(id_name(t, id)));
    assert(v[j + 2] == alone(id_name(t, id)));
    assert(forget_plan(t, id)[1].name == w[i + 2].name);
    assert(w[i + 2].name == v[j + 2].name && !w[i + 2].shared);
}

/// Erasures and holds run one at a time.
pub proof fn law_lifecycles_change_one_at_a_time(t: Seq<char>, id: Seq<char>, subject: Seq<char>)
    ensures
        excluded(hold_plan(t), hold_plan(t)),
        excluded(hold_plan(t), forget_plan(t, id)),
        excluded(hold_plan(t), subject_plan(t, subject)),
        excluded(hold_plan(t), cascade_plan(t)),
        excluded(cascade_plan(t), forget_plan(t, id)),
        excluded(cascade_plan(t), subject_plan(t, subject)),
        excluded(forget_plan(t, id), subject_plan(t, subject)),
{
    let h = hold_plan(t)[0];
    assert(h.name == forget_plan(t, id)[0].name);
    assert(h.name == subject_plan(t, subject)[0].name);
    assert(h.name == cascade_plan(t)[0].name);
}

/// Two writes that concern no id in common hold nothing that keeps the other
/// out, whatever their subjects.
pub proof fn law_unrelated_writes_run_at_once(
    t: Seq<char>,
    a: Seq<char>,
    ids: Seq<Seq<char>>,
    b: Seq<char>,
    others: Seq<Seq<char>>,
)
    requires
        forall|i: int, j: int|
            0 <= i < ids.len() && 0 <= j < others.len() ==> #[trigger] ids[i] != #[trigger] others[j],
    ensures
        !excluded(write_plan(t, a, ids), write_plan(t, b, others)),
{
    let w = write_plan(t, a, ids);
    let v = write_plan(t, b, others);
    if excluded(w, v) {
        let (i, j) = choose|i: int, j: int|
            0 <= i < w.len() && 0 <= j < v.len() && (#[trigger] w[i]).name == (#[trigger] v[j]).name
                && !(w[i].shared && v[j].shared);
        if i >= 2 && j >= 2 {
            let x = ids[i - 2];
            let y = others[j - 2];
            lemma_tail_tells("memory-id:"@, t, x, y);
        } else if i >= 2 {
            lemma_id_is_no_other(t, ids[i - 2], b);
        } else if j >= 2 {
            lemma_id_is_no_other(t, others[j - 2], a);
        }
    }
}

proof fn lemma_tail_tells(kind: Seq<char>, t: Seq<char>, x: Seq<char>, y: Seq<char>)
    requires
        lock_name(kind, t, x) == lock_name(kind, t, y),
    ensures
        x == y,
{
    let head = kind + decimal(encode_utf8(t).len() as int) + ":"@ + t;
    let a = head + x;
    let b = head + y;
    assert(a.len() == b.len());
    assert forall|i: int| 0 <= i < x.len() implies x[i] == y[i] by {
        assert(a[head.len() + i] == x[i]);
        assert(b[head.len() + i] == y[i]);
    }
    assert(x =~= y);
}

proof fn lemma_id_is_no_other(t: Seq<char>, id: Seq<char>, subject: Seq<char>)
    ensures
        id_name(t, id) != graph_name(t),
        id_name(t, id) != subject_name(t, subject),
{
    reveal_strlit("memory-id:");
    reveal_strlit("memory-graph:");
    reveal_strlit("memory-subject:");
    assert(id_name(t, id)[7] == 'i');
    assert(graph_name(t)[7] == 'g');
    assert(subject_name(t, subject)[7] == 's');
}

// ── Columns ─────────────────────────────────────────────────────────────────

/// What a version past the column's bound is refused with.
pub open spec fn too_wide(v: int) -> Refusal {
    Refusal::Backend("memory version "@ + decimal(v) + " exceeds PostgreSQL BIGINT"@)
}

/// The first refusal among the first `n` sources: a version that no column
/// holds, or what refuses a source anywhere.
pub open spec fn shared_sources_refusal(
    st: MemoryState,
    t: Seq<char>,
    item: ItemModel,
    n: int,
) -> Option<Refusal>
    decreases n,
{
    if n <= 0 {
        None
    } else {
        match shared_sources_refusal(st, t, item, n - 1) {
            Some(why) => Some(why),
            None => if item.derived_from[n - 1].version > i64::MAX {
                Some(too_wide(item.derived_from[n - 1].version as int))
            } else {
                source_refusal(st, t, item, n - 1)
            },
        }
    }
}

/// Why an item cannot be remembered in a shared database, if it cannot.
pub open spec fn shared_refusal(st: MemoryState, t: Seq<char>, item: ItemModel) -> Option<Refusal> {
    let name = (t, item.id);
    match scope_refusal(st, t, item) {
        Some(why) => Some(why),
        None => match shared_sources_refusal(st, t, item, item.derived_from.len() as int) {
            Some(why) => Some(why),
            None => if !st.current.contains_key(name) {
                None
            } else if st.current[name].version == u64::MAX {
                Some(Refusal::Backend("memory version overflow"@))
            } else if st.current[name].version + 1 > i64::MAX {
                Some(too_wide(st.current[name].version + 1))
            } else {
                None
            },
        },
    }
}

proof fn lemma_first_shared_refusal(
    st: MemoryState,
    t: Seq<char>,
    item: ItemModel,
    n: int,
    m: int,
)
    requires
        n <= m,
        shared_sources_refusal(st, t, item, n) is Some,
    ensures
        shared_sources_refusal(st, t, item, m) == shared_sources_refusal(st, t, item, n),
    decreases m,
{
    if n < m {
        lemma_first_shared_refusal(st, t, item, n, m - 1);
    }
}

proof fn lemma_shared_is_stricter(st: MemoryState, t: Seq<char>, item: ItemModel, n: int)
    requires
        shared_sources_refusal(st, t, item, n) is None,
    ensures
        sources_refusal(st, t, item, n) is None,
    decreases n,
{
    if n > 0 {
        lemma_shared_is_stricter(st, t, item, n - 1);
    }
}

/// Stores the next version of a memory in a shared database. The rules are those
/// of any memory, and every version must fit its column.
pub fn remember_shared(book: &mut MemoryBook, tenant: &str, item: MemoryItem) -> (r: Result<
    u64,
    StoreError,
>)
    requires
        old(book)@.wf(),
    ensures
        final(book)@.wf(),
        match shared_refusal(old(book)@, tenant@, item@) {
            Some(why) => r matches Err(e) && e@ == why && final(book)@ == old(book)@,
            None => r == Ok::<u64, StoreError>(next_version(old(book)@, (tenant@, item@.id)))
                && final(book)@ == remembered(old(book)@, tenant@, item@),
        },
{
    let ghost st = book@;
    let ghost it = item@;
    if let Err(e) = book.check_scope(tenant, &item) {
        return Err(e);
    }
    let mut i: usize = 0;
    while i < item.derived_from.len()
        invariant
            i <= item.derived_from@.len(),
            st == book@,
            st == old(book)@,
            st.wf(),
            it == item@,
            scope_refusal(st, tenant@, it) is None,
            shared_sources_refusal(st, tenant@, it, i as int) is None,
        decreases item.derived_from@.len() - i,
    {
        let ghost all = it.derived_from.len() as int;
        let source = &item.derived_from[i];
        assert(it.derived_from[i as int] == source@);
        if let Err(e) = version_i64(source.version) {
            proof {
                lemma_first_shared_refusal(st, tenant@, it, i + 1, all);
            }
            return Err(e);
        }
        if let Err(e) = book.check_source(tenant, &item, i) {
            proof {
                lemma_first_shared_refusal(st, tenant@, it, i + 1, all);
            }
            return Err(e);
        }
        i = i + 1;
    }
    match book.current.get(&(tenant.to_owned(), item.id.clone())) {
        None => {},
        Some(row) => {
            if row.version == u64::MAX {
                return Err(StoreError::Backend("memory version overflow".to_owned()));
            }
            if let Err(e) = version_i64(row.version + 1) {
                return Err(e);
            }
        },
    }
    proof {
        lemma_shared_is_stricter(st, tenant@, it, it.derived_from.len() as int);
        assert(remember_refusal(st, tenant@, it) is None);
    }
    book.remember(tenant, item)
}

/// A version of a memory in a shared database.
pub fn version_shared(book: &MemoryBook, tenant: &str, id: &str, version: u64) -> (r: Result<
    Option<MemoryItem>,
    StoreError,
>)
    ensures
        match r {
            Err(e) => version > i64::MAX && e@ == too_wide(version as int),
            Ok(found) => version <= i64::MAX && {
                let k = (tenant@, (id@, version));
                match found {
                    Some(item) => book@.items.contains_key(k) && item@ == book@.items[k],
                    None => !book@.items.contains_key(k),
                }
            },
        },
{
    match version_i64(version) {
        Err(e) => Err(e),
        Ok(_) => Ok(book.version(tenant, id, version)),
    }
}

/// Whether a believed memory has ended by a second. A shared database keeps and
/// compares whole seconds.
pub open spec fn ended_by_second(st: MemoryState, name: Name, secs: i64) -> bool {
    ||| st.believed(name).expires_at matches Some(e) && e.secs <= secs
    ||| st.access.contains_key(name) && st.access[name] <= secs
}

/// The last instant of a second.
pub open spec fn end_of(secs: i64) -> Instant {
    Instant { secs, nanos: u32::MAX }
}

/// What has ended by a second has ended by its last instant.
proof fn lemma_seconds(st: MemoryState, name: Name, secs: i64)
    ensures
        ended(st, name, end_of(secs)) == ended_by_second(st, name, secs),
{
}

/// Whether a recall from a shared database may answer with a memory.
pub open spec fn wanted_shared(st: MemoryState, t: Seq<char>, q: Recall, id: Seq<char>) -> bool {
    &&& candidate(st, t, q, id)
    &&& q.as_of matches Some(at) ==> !ended_by_second(st, (t, id), at.secs)
}

/// Whether these items are what a recall from a shared database answers: the
/// best of the wanted memories, in order, cut at the limit.
pub open spec fn recalled_shared(
    st: MemoryState,
    t: Seq<char>,
    q: Recall,
    out: Seq<ItemModel>,
) -> bool {
    &&& out.len() <= q.limit
    &&& forall|i: int|
        0 <= i < out.len() ==> wanted_shared(st, t, q, (#[trigger] out[i]).id) && out[i]
            == st.believed((t, out[i].id))
    &&& forall|i: int, j: int|
        0 <= i < j < out.len() ==> better(
            standing(st, t, (#[trigger] out[i]).id),
            standing(st, t, (#[trigger] out[j]).id),
        )
    &&& forall|id: Seq<char>| #[trigger]
        wanted_shared(st, t, q, id) ==> (exists|i: int|
            0 <= i < out.len() && (#[trigger] out[i]).id == id) || (out.len() == q.limit && forall|
            i: int,
        |
            0 <= i < out.len() ==> better(
                standing(st, t, (#[trigger] out[i]).id),
                standing(st, t, id),
            ))
}

/// The memories that a recall from a shared database gives.
pub fn recall_shared(book: &MemoryBook, tenant: &str, q: &Recall) -> (r: Result<
    Vec<MemoryItem>,
    StoreError,
>)
    requires
        book@.wf(),
    ensures
        match r {
            Err(e) => q.limit > i64::MAX && e@ == Refusal::Backend(
                "memory recall limit exceeds BIGINT"@,
            ),
            Ok(out) => q.limit <= i64::MAX && recalled_shared(
                book@,
                tenant@,
                *q,
                items_of(out@),
            ),
        },
{
    if let Err(e) = recall_limit(q.limit) {
        return Err(e);
    }
    let whole = Recall {
        subject: q.subject.clone(),
        purpose: copied(&q.purpose),
        limit: q.limit,
        as_of: match q.as_of {
            Some(at) => Some(Instant { secs: at.secs, nanos: u32::MAX }),
            None => None,
        },
    };
    let out = book.recall(tenant, &whole);
    proof {
        let st = book@;
        let t = tenant@;
        assert(said(whole.purpose) == said(q.purpose));
        assert forall|id: Seq<char>| #[trigger] wanted_shared(st, t, *q, id) == wanted(
            st,
            t,
            whole,
            id,
        ) by {
            if let Some(at) = q.as_of {
                lemma_seconds(st, (t, id), at.secs);
            }
        }
        let items = items_of(out@);
        assert forall|i: int| 0 <= i < items.len() implies wanted_shared(
            st,
            t,
            *q,
            (#[trigger] items[i]).id,
        ) && items[i] == st.believed((t, items[i].id)) by {
            assert(wanted(st, t, whole, items[i].id));
        }
        assert forall|id: Seq<char>| #[trigger] wanted_shared(st, t, *q, id) implies (exists|i: int|
            0 <= i < items.len() && (#[trigger] items[i]).id == id) || (items.len() == q.limit
            && forall|i: int|
            0 <= i < items.len() ==> better(
                standing(st, t, (#[trigger] items[i]).id),
                standing(st, t, id),
            )) by {
            assert(wanted(st, t, whole, id));
        }
    }
    Ok(out)
}

/// The ids whose life has ended by a second and that no hold protects.
pub open spec fn expired_by_second(st: MemoryState, t: Seq<char>, secs: i64) -> Set<Seq<char>> {
    Set::new(
        |id: Seq<char>|
            st.current.contains_key((t, id)) && !st.holds.contains_key((t, id))
                && ended_by_second(st, (t, id), secs),
    )
}

/// Erases from a shared database what has outlived its ceiling or its window,
/// except what a hold protects.
pub fn sweep_shared(book: &mut MemoryBook, tenant: &str, at: Instant) -> (n: usize)
    requires
        old(book)@.wf(),
    ensures
        final(book)@.wf(),
        n == expired_by_second(old(book)@, tenant@, at.secs).len(),
        final(book)@ == erased(
            old(book)@,
            tenant@,
            expired_by_second(old(book)@, tenant@, at.secs),
        ),
{
    let whole = Instant { secs: at.secs, nanos: u32::MAX };
    proof {
        let st = book@;
        assert forall|id: Seq<char>| ended(st, (tenant@, id), whole) == ended_by_second(
            st,
            (tenant@, id),
            at.secs,
        ) by {
            lemma_seconds(st, (tenant@, id), at.secs);
        }
        assert(expired_set(st, tenant@, whole) =~= expired_by_second(st, tenant@, at.secs));
    }
    book.sweep_expired(tenant, whole)
}

/// Where a derivative stands among those of a source: the newest first, and by id
/// among those of one second.
pub open spec fn newness(item: ItemModel) -> (i64, Seq<char>) {
    (item.created_at.secs, item.id)
}

/// Whether these items are the live derivatives of `source` as a shared database
/// gives them: each once, the newest first.
pub open spec fn derivation_shared(
    st: MemoryState,
    t: Seq<char>,
    source: Seq<char>,
    out: Seq<ItemModel>,
) -> bool {
    &&& forall|i: int|
        0 <= i < out.len() ==> derives(st, t, source, (#[trigger] out[i]).id) && out[i]
            == st.believed((t, out[i].id))
    &&& forall|i: int, j: int|
        0 <= i < j < out.len() ==> <(Newest, String)>::precedes(
            newness(#[trigger] out[i]),
            newness(#[trigger] out[j]),
        )
    &&& forall|id: Seq<char>| #[trigger]
        derives(st, t, source, id) ==> exists|i: int|
            0 <= i < out.len() && (#[trigger] out[i]).id == id
}

/// What is believed now and was derived from a memory, the newest first.
pub fn derivatives_shared(book: &MemoryBook, tenant: &str, id: &str) -> (out: Vec<MemoryItem>)
    requires
        book@.wf(),
    ensures
        derivation_shared(book@, tenant@, id@, items_of(out@)),
{
    let ghost st = book@;
    let ghost t = tenant@;
    let found = book.derivatives(tenant, id);
    let ghost all = items_of(found@);
    let mut ranked: Table<(Newest, String), MemoryItem> = Table::new();
    let mut i: usize = 0;
    while i < found.len()
        invariant
            i <= found@.len(),
            all == items_of(found@),
            forall|j: int|
                0 <= j < all.len() ==> derives(st, t, id@, (#[trigger] all[j]).id) && all[j]
                    == st.believed((t, all[j].id)),
            forall|k: (i64, Seq<char>)| #[trigger]
                ranked@.contains_key(k) ==> derives(st, t, id@, k.1) && ranked@[k] == st.believed(
                    (t, k.1),
                ) && k == newness(ranked@[k]),
            forall|j: int| 0 <= j < i ==> ranked@.contains_key(newness(#[trigger] all[j])),
        decreases found@.len() - i,
    {
        let item = &found[i];
        assert(all[i as int] == item@);
        let ghost before = ranked@;
        ranked.insert((Newest(item.created_at.secs), item.id.clone()), item.twin());
        assert(ranked@ == before.insert(newness(item@), item@));
        i = i + 1;
    }
    let n = ranked.len();
    let ghost e = ranked.entries();
    let mut out: Vec<MemoryItem> = Vec::new();
    let mut i: usize = 0;
    while i < n
        invariant
            i <= n,
            n == e.len(),
            e == ranked.entries(),
            in_order::<(Newest, String), ItemModel>(e),
            forall|j: int|
                0 <= j < n ==> ranked@.contains_key((#[trigger] e[j]).0) && ranked@[e[j].0]
                    == e[j].1,
            out@.len() == i,
            forall|j: int| 0 <= j < i ==> (#[trigger] out@[j])@ == e[j].1,
        decreases n - i,
    {
        out.push(ranked.row_at(i).twin());
        i = i + 1;
    }
    proof {
        let items = items_of(out@);
        assert forall|a: int, b: int| 0 <= a < b < items.len() implies <(
            Newest,
            String,
        )>::precedes(newness(#[trigger] items[a]), newness(#[trigger] items[b])) by {
            assert(items[a] == e[a].1 && items[b] == e[b].1);
            assert(ranked@.contains_key(e[a].0) && ranked@.contains_key(e[b].0));
        }
        assert forall|a: int| 0 <= a < items.len() implies derives(
            st,
            t,
            id@,
            (#[trigger] items[a]).id,
        ) && items[a] == st.believed((t, items[a].id)) by {
            assert(items[a] == e[a].1);
            assert(ranked@.contains_key(e[a].0));
        }
        assert forall|x: Seq<char>| #[trigger] derives(st, t, id@, x) implies exists|a: int|
            0 <= a < items.len() && (#[trigger] items[a]).id == x by {
            let j = choose|j: int| 0 <= j < all.len() && (#[trigger] all[j]).id == x;
            let k = newness(all[j]);
            assert(ranked@.contains_key(k));
            assert(has_key(e, k));
            let a = choose|a: int| 0 <= a < e.len() && (#[trigger] e[a]).0 == k;
            assert(items[a] == e[a].1);
            assert(items[a].id == x);
        }
    }
    out
}

// ── Laws ────────────────────────────────────────────────────────────────────

proof fn lemma_encoding_adds_up(a: Seq<char>, b: Seq<char>)
    ensures
        encode_utf8(a + b).len() == encode_utf8(a).len() + encode_utf8(b).len(),
    decreases a.len(),
{
    if a.len() == 0 {
        assert(a + b =~= b);
    } else {
        lemma_encoding_adds_up(a.drop_first(), b);
        assert((a + b).drop_first() =~= a.drop_first() + b);
        assert((a + b)[0] == a[0]);
    }
}

proof fn lemma_encoding_is_long(a: Seq<char>)
    ensures
        encode_utf8(a).len() >= a.len(),
    decreases a.len(),
{
    if a.len() > 0 {
        lemma_encoding_is_long(a.drop_first());
    }
}

proof fn lemma_decimal_is_digits(n: int)
    requires
        0 <= n,
    ensures
        decimal(n).len() > 0,
        forall|i: int| 0 <= i < decimal(n).len() ==> #[trigger] decimal(n)[i] != ':',
    decreases n,
{
    if n >= 10 {
        lemma_decimal_is_digits(n / 10);
    }
}

proof fn lemma_decimal_is_one(n: int, m: int)
    requires
        0 <= n,
        0 <= m,
        decimal(n) == decimal(m),
    ensures
        n == m,
    decreases n,
{
    lemma_decimal_is_digits(n / 10);
    lemma_decimal_is_digits(m / 10);
    let a = decimal(n);
    let b = decimal(m);
    assert(a.last() == b.last());
    if n >= 10 && m >= 10 {
        assert(a.drop_last() =~= decimal(n / 10));
        assert(b.drop_last() =~= decimal(m / 10));
        lemma_decimal_is_one(n / 10, m / 10);
    }
}

/// Two locks of a kind are two unless they are of the same tenant and cover the
/// same thing: no tenant's lock is another tenant's, however they are named.
pub proof fn law_locks_are_apart(
    kind: Seq<char>,
    t: Seq<char>,
    a: Seq<char>,
    u: Seq<char>,
    b: Seq<char>,
)
    requires
        lock_name(kind, t, a) == lock_name(kind, u, b),
    ensures
        t == u,
        a == b,
{
    reveal_strlit(":");
    let x = lock_name(kind, t, a);
    let y = lock_name(kind, u, b);
    let n = encode_utf8(t).len() as int;
    let m = encode_utf8(u).len() as int;
    let dn = decimal(n);
    let dm = decimal(m);
    let k = kind.len() as int;
    lemma_decimal_is_digits(n);
    lemma_decimal_is_digits(m);
    assert(x[k + dn.len()] == ':');
    assert(y[k + dm.len()] == ':');
    if dn.len() < dm.len() {
        assert(y[k + dn.len()] == dm[dn.len() as int]);
    }
    if dm.len() < dn.len() {
        assert(x[k + dm.len()] == dn[dm.len() as int]);
    }
    assert(dn =~= dm) by {
        assert forall|i: int| 0 <= i < dn.len() implies dn[i] == dm[i] by {
            assert(x[k + i] == dn[i]);
            assert(y[k + i] == dm[i]);
        }
    }
    lemma_decimal_is_one(n, m);
    let p = k + dn.len() + 1;
    assert(x.skip(p) =~= t + a);
    assert(y.skip(p) =~= u + b);
    lemma_same_length_same_name(t, a, u, b);
}

proof fn lemma_same_length_same_name(t: Seq<char>, a: Seq<char>, u: Seq<char>, b: Seq<char>)
    requires
        t + a == u + b,
        encode_utf8(t).len() == encode_utf8(u).len(),
    ensures
        t == u,
        a == b,
{
    let x = t + a;
    let y = u + b;
    if t.len() <= u.len() {
        let rest = u.skip(t.len() as int);
        assert(u =~= t + rest) by {
            assert forall|i: int| 0 <= i < t.len() implies u[i] == t[i] by {
                assert(x[i] == t[i]);
                assert(y[i] == u[i]);
            }
        }
        lemma_encoding_adds_up(t, rest);
        lemma_encoding_is_long(rest);
    } else {
        let rest = t.skip(u.len() as int);
        assert(t =~= u + rest) by {
            assert forall|i: int| 0 <= i < u.len() implies t[i] == u[i] by {
                assert(x[i] == t[i]);
                assert(y[i] == u[i]);
            }
        }
        lemma_encoding_adds_up(u, rest);
        lemma_encoding_is_long(rest);
    }
    assert(t =~= u);
    assert(x.skip(t.len() as int) =~= a);
    assert(y.skip(u.len() as int) =~= b);
}

/// Two writes never wait for each other in a circle: of two ids that both
/// concern, both lock the same one first.
pub proof fn law_locks_are_taken_in_order(
    x: ItemModel,
    xs: Seq<Seq<char>>,
    y: ItemModel,
    ys: Seq<Seq<char>>,
    i: int,
    j: int,
    k: int,
    l: int,
)
    requires
        concerned(x, xs),
        concerned(y, ys),
        0 <= i < j < xs.len(),
        0 <= k < ys.len(),
        0 <= l < ys.len(),
        ys[k] == xs[i],
        ys[l] == xs[j],
    ensures
        k < l,
{
    assert(text_before(xs[i], xs[j]));
    String::lemma_irreflexive(xs[i]);
    if l < k {
        assert(text_before(ys[l], ys[k]));
        String::lemma_transitive(xs[i], xs[j], xs[i]);
    }
}

/// What a shared database takes, any memory takes.
pub proof fn law_shared_memory_is_stricter(st: MemoryState, t: Seq<char>, item: ItemModel)
    requires
        shared_refusal(st, t, item) is None,
    ensures
        remember_refusal(st, t, item) is None,
{
    lemma_shared_is_stricter(st, t, item, item.derived_from.len() as int);
}

/// A write locks its own id and the id of every source that it names, and no other.
pub proof fn law_write_locks_every_source(
    item: ItemModel,
    ids: Seq<Seq<char>>,
    i: int,
    id: Seq<char>,
)
    requires
        concerned(item, ids),
    ensures
        ids.contains(item.id),
        0 <= i < item.derived_from.len() ==> ids.contains(item.derived_from[i].id),
        id != item.id && (forall|j: int|
            0 <= j < item.derived_from.len() ==> (#[trigger] item.derived_from[j]).id != id)
            ==> !ids.contains(id),
{
    if 0 <= i < item.derived_from.len() {
        let x = item.derived_from[i].id;
        assert(item.derived_from[i].id == x);
        assert(ids.contains(x));
    }
}

} // verus!
