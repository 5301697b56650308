//! What governed memory answers and keeps, said of its tables.

use vstd::prelude::*;

use crate::domain::Instant;
use crate::memory::{
    absorbed, better, cascade_held, cascaded, covers, derivation, derives, doomed, emptied, ended,
    erased, expired_set, forget_refusal, forgotten_one, hold_refusal, hold_set, is_held, link,
    linked, next_version, reached, recalled, remember_refusal, remembered, source_refusal,
    sources_refusal, standing, steps, subject_forgotten, subject_set, target, touched,
    touched_windows, version_of, wanted, within, ItemModel, Link, MemoryState, Name, Node, Recall,
    RefModel, Trust, VersionName,
};
use crate::table::{text_before, Key, Newest};

verus! {

// ── Recall ──────────────────────────────────────────────────────────────────

/// Whether a memory has come to its end: the instant that it expires at is no
/// later, or the window that an access renews has closed by that second.
pub open spec fn over(st: MemoryState, name: Name, item: ItemModel, at: Instant) -> bool {
    ||| item.expires_at is Some && (item.expires_at->0.secs < at.secs || (item.expires_at->0.secs
        == at.secs && item.expires_at->0.nanos <= at.nanos))
    ||| st.access.contains_key(name) && st.access[name] <= at.secs
}

/// A memory ends with its ceiling or its window, whichever comes first.
pub proof fn law_life_ends(st: MemoryState, name: Name, at: Instant)
    ensures
        ended(st, name, at) <==> over(
            st,
            name,
            st.items[(name.0, (name.1, st.current[name].version))],
            at,
        ),
{
}

/// A recall answers with what was asked for and nothing else: every memory in the
/// answer is about the subject, was kept for the purpose where one is named, is
/// what is believed under its id now, and has not come to its end. There are no
/// more of them than were asked for, and none comes twice.
pub proof fn law_recall_answers_what_was_asked(
    st: MemoryState,
    t: Seq<char>,
    q: Recall,
    out: Seq<ItemModel>,
    i: int,
    j: int,
)
    requires
        st.wf(),
        recalled(st, t, q, out),
        0 <= i < out.len(),
        0 <= j < out.len(),
    ensures
        out.len() <= q.limit,
        out[i].subject == q.subject@,
        q.purpose is Some ==> out[i].purpose == q.purpose->0@,
        st.current.contains_key((t, out[i].id)),
        out[i].version == st.current[(t, out[i].id)].version,
        st.items[(t, (out[i].id, out[i].version))] == out[i],
        q.as_of is Some ==> !over(st, (t, out[i].id), out[i], q.as_of->0),
        i != j ==> out[i].id != out[j].id,
{
    let name = (t, out[i].id);
    assert(wanted(st, t, q, out[i].id));
    assert(st.current.contains_key(name));
    assert(st.items.contains_key((t, (out[i].id, st.current[name].version))));
    if q.as_of is Some {
        law_life_ends(st, name, q.as_of->0);
    }
    if i != j && out[i].id == out[j].id {
        let s = standing(st, t, out[i].id);
        if i < j {
            assert(better(standing(st, t, out[i].id), standing(st, t, out[j].id)));
        } else {
            assert(better(standing(st, t, out[j].id), standing(st, t, out[i].id)));
        }
        <(u64, (Newest, String)) as Key>::lemma_irreflexive(s);
    }
}

/// Whether one memory comes before another in an answer: what is trusted before
/// what is not, then the newer, and by id among those of one second.
pub open spec fn leads(a: ItemModel, b: ItemModel) -> bool {
    if a.trust != b.trust {
        a.trust == Trust::Trusted
    } else if a.created_at.secs != b.created_at.secs {
        a.created_at.secs > b.created_at.secs
    } else {
        text_before(a.id, b.id)
    }
}

pub proof fn lemma_leads(st: MemoryState, t: Seq<char>, a: Seq<char>, b: Seq<char>)
    requires
        st.wf(),
        st.current.contains_key((t, a)),
        st.current.contains_key((t, b)),
    ensures
        better(standing(st, t, a), standing(st, t, b)) <==> leads(
            st.items[(t, (a, st.current[(t, a)].version))],
            st.items[(t, (b, st.current[(t, b)].version))],
        ),
{
    assert(st.items.contains_key((t, (a, st.current[(t, a)].version))));
    assert(st.items.contains_key((t, (b, st.current[(t, b)].version))));
    assert(st.believed((t, a)).created_at.secs == st.current[(t, a)].created_at);
    assert(st.believed((t, b)).created_at.secs == st.current[(t, b)].created_at);
}

/// An answer begins with what is trusted, and with the newest of that; what is not
/// trusted follows, the newest of it first again.
pub proof fn law_recall_comes_in_order(
    st: MemoryState,
    t: Seq<char>,
    q: Recall,
    out: Seq<ItemModel>,
    i: int,
    j: int,
)
    requires
        st.wf(),
        recalled(st, t, q, out),
        0 <= i < j < out.len(),
    ensures
        leads(out[i], out[j]),
{
    assert(wanted(st, t, q, out[i].id));
    assert(wanted(st, t, q, out[j].id));
    lemma_leads(st, t, out[i].id, out[j].id);
    assert(better(standing(st, t, out[i].id), standing(st, t, out[j].id)));
}

/// A recall passes nothing over: a memory that is believed, about the subject, kept
/// for the purpose where one is named and not at its end is answered where there is
/// room; where there is none, everything in the answer comes before it.
pub proof fn law_recall_leaves_nothing_out(
    st: MemoryState,
    t: Seq<char>,
    q: Recall,
    out: Seq<ItemModel>,
    id: Seq<char>,
    i: int,
)
    requires
        st.wf(),
        recalled(st, t, q, out),
        st.current.contains_key((t, id)),
        ({
            let item = st.items[(t, (id, st.current[(t, id)].version))];
            &&& item.subject == q.subject@
            &&& q.purpose is Some ==> item.purpose == q.purpose->0@
            &&& q.as_of is Some ==> !over(st, (t, id), item, q.as_of->0)
        }),
        forall|j: int| 0 <= j < out.len() ==> (#[trigger] out[j]).id != id,
    ensures
        out.len() == q.limit,
        0 <= i < out.len() ==> leads(out[i], st.items[(t, (id, st.current[(t, id)].version))]),
{
    assert(st.items.contains_key((t, (id, st.current[(t, id)].version))));
    if q.as_of is Some {
        law_life_ends(st, (t, id), q.as_of->0);
    }
    assert(wanted(st, t, q, id));
    if 0 <= i < out.len() {
        assert(wanted(st, t, q, out[i].id));
        lemma_leads(st, t, out[i].id, id);
        assert(better(standing(st, t, out[i].id), standing(st, t, id)));
    }
}

// ── Remembering ─────────────────────────────────────────────────────────────

proof fn lemma_no_source_refused(st: MemoryState, t: Seq<char>, item: ItemModel, n: int)
    ensures
        sources_refusal(st, t, item, n) is None <==> forall|i: int|
            0 <= i < n ==> #[trigger] source_refusal(st, t, item, i) is None,
    decreases n,
{
    if n > 0 {
        lemma_no_source_refused(st, t, item, n - 1);
    }
}

/// A memory is refused exactly where it must be: its id was erased, or belongs to
/// another subject or purpose; or a source that it names is not kept, reads
/// otherwise than it says, or is about another subject. (An id can also run out of
/// versions.)
pub proof fn law_remembering_is_refused(st: MemoryState, t: Seq<char>, item: ItemModel)
    requires
        st.wf(),
    ensures
        remember_refusal(st, t, item) is None <==> {
            &&& !st.forgotten.contains_key((t, item.id))
            &&& st.current.contains_key((t, item.id)) ==> {
                &&& st.current[(t, item.id)].subject == item.subject
                &&& st.current[(t, item.id)].purpose == item.purpose
                &&& st.current[(t, item.id)].version < u64::MAX
            }
            &&& forall|i: int|
                #![trigger item.derived_from[i]]
                0 <= i < item.derived_from.len() ==> {
                    let s = item.derived_from[i];
                    &&& st.items.contains_key((t, (s.id, s.version)))
                    &&& st.items[(t, (s.id, s.version))].digest == s.digest
                    &&& st.items[(t, (s.id, s.version))].subject == item.subject
                }
        },
{
    let n = item.derived_from.len() as int;
    lemma_no_source_refused(st, t, item, n);
    assert forall|i: int| 0 <= i < n implies (#[trigger] source_refusal(st, t, item, i) is None
        <==> {
        let s = item.derived_from[i];
        &&& st.items.contains_key((t, (s.id, s.version)))
        &&& st.items[(t, (s.id, s.version))].digest == s.digest
        &&& st.items[(t, (s.id, s.version))].subject == item.subject
    }) by {
        let _s = item.derived_from[i];
    }
    if st.forgotten.contains_key((t, item.id)) {
        assert(!st.current.contains_key((t, item.id)));
    }
    if remember_refusal(st, t, item) is None {
        assert forall|i: int|
            #![trigger item.derived_from[i]]
            0 <= i < item.derived_from.len() implies {
            let s = item.derived_from[i];
            &&& st.items.contains_key((t, (s.id, s.version)))
            &&& st.items[(t, (s.id, s.version))].digest == s.digest
            &&& st.items[(t, (s.id, s.version))].subject == item.subject
        } by {
            assert(source_refusal(st, t, item, i) is None);
        }
    }
}

/// A window, no longer than time is counted.
pub open spec fn at_most(window: u64) -> int {
    if window > i64::MAX {
        i64::MAX as int
    } else {
        window as int
    }
}

/// A memory that is remembered is the next version of its id and is believed from
/// then on, as it was given; the version before it is kept, as superseded by it.
/// Nothing else is touched but its window: it closes as long after the memory was
/// made as was asked for, or later where it was open longer.
pub proof fn law_remembering_writes_one_version(
    st: MemoryState,
    t: Seq<char>,
    item: ItemModel,
    k: VersionName,
    name: Name,
)
    requires
        st.wf(),
        remember_refusal(st, t, item) is None,
    ensures
        ({
            let own = (t, item.id);
            let v = next_version(st, own);
            let after = remembered(st, t, item);
            let before = st.current[own].version;
            &&& v == if st.current.contains_key(own) {
                (before + 1) as u64
            } else {
                1
            }
            &&& after.current.contains_key(own)
            &&& after.current[own].version == v
            &&& after.current[own].subject == item.subject
            &&& after.current[own].purpose == item.purpose
            &&& after.items.contains_key((t, (item.id, v)))
            &&& after.items[(t, (item.id, v))] == (ItemModel {
                version: v,
                superseded_at: None,
                ..item
            })
            &&& st.current.contains_key(own) ==> after.items[(t, (item.id, before))].superseded_at
                == Some(item.created_at)
            &&& k != (t, (item.id, v)) ==> after.items.contains_key(k) == st.items.contains_key(k)
            &&& st.items.contains_key(k) && !(st.current.contains_key(own) && k == (
                t,
                (item.id, before),
            )) ==> after.items[k] == st.items[k]
            &&& name != own ==> after.current.contains_key(name) == st.current.contains_key(name)
                && after.access.contains_key(name) == st.access.contains_key(name)
            &&& name != own && st.current.contains_key(name) ==> after.current[name]
                == st.current[name]
            &&& name != own && st.access.contains_key(name) ==> after.access[name]
                == st.access[name]
            &&& item.access_retention_seconds is None ==> !after.access.contains_key(own)
            &&& item.access_retention_seconds is Some ==> {
                let asked = item.created_at.secs + at_most(item.access_retention_seconds->0);
                &&& after.access.contains_key(own)
                &&& asked <= i64::MAX ==> after.access[own] >= asked
                &&& asked > i64::MAX ==> after.access[own] == i64::MAX
                &&& st.access.contains_key(own) ==> after.access[own] >= st.access[own]
                &&& asked <= i64::MAX ==> after.access[own] == asked || (
                st.access.contains_key(own) && after.access[own] == st.access[own])
            }
            &&& after.forgotten == st.forgotten
            &&& after.holds == st.holds
        }),
{
    let own = (t, item.id);
    let v = next_version(st, own);
    if st.items.contains_key((t, (item.id, v))) {
        assert(st.current.contains_key(crate::memory::version_name((t, (item.id, v)))));
    }
    if st.current.contains_key(own) {
        assert(st.items.contains_key((t, (item.id, st.current[own].version))));
    }
}

/// Every version that was remembered can be read, the newest as it was given and
/// those before it as they were; what was never remembered cannot.
pub proof fn law_versions_are_read_back(
    st: MemoryState,
    t: Seq<char>,
    item: ItemModel,
    v: u64,
)
    requires
        st.wf(),
        remember_refusal(st, t, item) is None,
    ensures
        ({
            let next = next_version(st, (t, item.id));
            let after = remembered(st, t, item);
            &&& version_of(after, t, item.id, next) is Some
            &&& version_of(after, t, item.id, next)->0.version == next
            &&& version_of(after, t, item.id, next)->0.content == item.content
            &&& version_of(after, t, item.id, next)->0.digest == item.digest
            &&& version_of(after, t, item.id, next)->0.subject == item.subject
            &&& v != next ==> (version_of(after, t, item.id, v) is Some <==> version_of(
                st,
                t,
                item.id,
                v,
            ) is Some)
            &&& v != next && version_of(st, t, item.id, v) is Some ==> version_of(
                after,
                t,
                item.id,
                v,
            )->0.content == version_of(st, t, item.id, v)->0.content
            &&& version_of(st, t, item.id, v) is Some <==> st.items.contains_key((t, (item.id, v)))
        }),
{
    law_remembering_writes_one_version(st, t, item, (t, (item.id, v)), (t, item.id));
    if st.current.contains_key((t, item.id)) {
        assert(st.items.contains_key((t, (item.id, st.current[(t, item.id)].version))));
    }
}

proof fn lemma_links(
    edges: Map<Link, ()>,
    t: Seq<char>,
    sources: Seq<RefModel>,
    id: Seq<char>,
    v: u64,
    n: int,
    k: Link,
)
    requires
        0 <= n <= sources.len(),
    ensures
        linked(edges, t, sources, id, v, n).contains_key(k) <==> edges.contains_key(k) || (k.0 == t
            && k.1.1.1 == (id, v) && exists|i: int|
            0 <= i < n && (#[trigger] sources[i]).id == k.1.0 && sources[i].version == k.1.1.0),
    decreases n,
{
    if n > 0 {
        lemma_links(edges, t, sources, id, v, n - 1, k);
        let s = sources[n - 1];
        if k == link(t, s, id, v) {
            assert(s.id == k.1.0 && s.version == k.1.1.0);
        }
    }
}

/// A memory is linked to each version that it was made of, and to no other; no
/// link that there was is lost.
pub proof fn law_remembering_links_its_sources(
    st: MemoryState,
    t: Seq<char>,
    item: ItemModel,
    k: Link,
)
    requires
        st.wf(),
        remember_refusal(st, t, item) is None,
    ensures
        remembered(st, t, item).edges.contains_key(k) <==> st.edges.contains_key(k) || {
            &&& k.0 == t
            &&& k.1.1.1 == (item.id, next_version(st, (t, item.id)))
            &&& exists|i: int|
                0 <= i < item.derived_from.len() && (#[trigger] item.derived_from[i]).id == k.1.0
                    && item.derived_from[i].version == k.1.1.0
        },
{
    lemma_links(
        st.edges,
        t,
        item.derived_from,
        item.id,
        next_version(st, (t, item.id)),
        item.derived_from.len() as int,
        k,
    );
}

// ── Erasing ─────────────────────────────────────────────────────────────────

/// Whether nothing of an id can be read, and nothing of it will be again.
pub open spec fn gone(st: MemoryState, t: Seq<char>, id: Seq<char>) -> bool {
    &&& !st.current.contains_key((t, id))
    &&& st.forgotten.contains_key((t, id))
    &&& !st.access.contains_key((t, id))
    &&& forall|v: u64| !#[trigger] st.items.contains_key((t, (id, v)))
}

/// Whether two states have the same of an id.
pub open spec fn untouched(a: MemoryState, b: MemoryState, name: Name) -> bool {
    &&& a.current.contains_key(name) == b.current.contains_key(name)
    &&& a.current.contains_key(name) ==> a.current[name] == b.current[name]
    &&& a.forgotten.contains_key(name) == b.forgotten.contains_key(name)
    &&& a.holds.contains_key(name) == b.holds.contains_key(name)
    &&& a.access.contains_key(name) == b.access.contains_key(name)
    &&& a.access.contains_key(name) ==> a.access[name] == b.access[name]
    &&& forall|v: u64| #[trigger]
        a.items.contains_key((name.0, (name.1, v))) == b.items.contains_key((name.0, (name.1, v)))
    &&& forall|v: u64| #[trigger]
        a.items.contains_key((name.0, (name.1, v))) ==> a.items[(name.0, (name.1, v))]
            == b.items[(name.0, (name.1, v))]
}

/// Forgetting a memory takes all of it and nothing of any other. One under legal
/// hold is not forgotten, and only such a one.
pub proof fn law_forgetting_takes_one_memory(
    st: MemoryState,
    t: Seq<char>,
    id: Seq<char>,
    other: Name,
)
    requires
        st.wf(),
    ensures
        forget_refusal(st, t, id) is Some <==> st.holds.contains_key((t, id)),
        st.current.contains_key((t, id)) ==> gone(forgotten_one(st, t, id), t, id),
        !st.current.contains_key((t, id)) ==> forgotten_one(st, t, id) == st,
        other != (t, id) ==> untouched(st, forgotten_one(st, t, id), other),
{
    assert forall|v: u64| st.current.contains_key((t, id)) implies !#[trigger] forgotten_one(
        st,
        t,
        id,
    ).items.contains_key((t, (id, v))) by {
        assert(set![id].contains(id));
    }
}

/// A sweep takes exactly the memories of the tenant that have come to their end
/// and are not held: all of each, and nothing of any other.
pub proof fn law_sweep_takes_what_has_ended(
    st: MemoryState,
    t: Seq<char>,
    at: Instant,
    name: Name,
)
    requires
        st.wf(),
    ensures
        ({
            let after = erased(st, t, expired_set(st, t, at));
            let item = st.items[(name.0, (name.1, st.current[name].version))];
            let falls = name.0 == t && st.current.contains_key(name) && !st.holds.contains_key(
                name,
            ) && over(st, name, item, at);
            &&& falls ==> gone(after, t, name.1) && expired_set(st, t, at).contains(name.1)
            &&& !falls ==> untouched(st, after, name)
            &&& name.0 == t && !falls ==> !expired_set(st, t, at).contains(name.1)
        }),
{
    law_life_ends(st, name, at);
}

/// Forgetting a subject takes exactly the memories of the tenant about it: all of
/// each, and nothing of any other.
pub proof fn law_forgetting_a_subject(
    st: MemoryState,
    t: Seq<char>,
    subject: Seq<char>,
    name: Name,
    k: Link,
)
    requires
        st.wf(),
    ensures
        ({
            let after = subject_forgotten(st, t, subject);
            let falls = name.0 == t && st.current.contains_key(name) && st.current[name].subject
                == subject;
            &&& falls ==> gone(after, t, name.1)
            &&& !falls ==> untouched(st, after, name)
            &&& name.0 == t ==> (subject_set(st, t, subject).contains(name.1) <==> falls)
            &&& after.edges.contains_key(k) <==> st.edges.contains_key(k) && !(k.0 == t
                && st.current.contains_key((t, k.1.1.1.0)) && st.current[(t, k.1.1.1.0)].subject
                == subject)
        }),
{
}

/// A set of versions that a cascade may not stop short of: it has every version of
/// the root; it has what read one of its own; and with the version that is believed
/// of an id it has the whole id.
pub open spec fn closed_under_reading(
    st: MemoryState,
    t: Seq<char>,
    root: Seq<char>,
    all: spec_fn(Seq<char>, u64) -> bool,
) -> bool {
    &&& forall|v: u64| #[trigger] all(root, v)
    &&& forall|s: Seq<char>, sv: u64, d: Seq<char>, dv: u64| #[trigger]
        st.edges.contains_key((t, (s, (sv, (d, dv))))) && all(s, sv) ==> all(d, dv) && (
        st.current.contains_key((t, d)) && st.current[(t, d)].version == dv ==> forall|w: u64|
         #[trigger] all(d, w))
}

proof fn lemma_reached_is_in(
    st: MemoryState,
    t: Seq<char>,
    root: Seq<char>,
    all: spec_fn(Seq<char>, u64) -> bool,
    n: nat,
    b: Node,
    v: u64,
)
    requires
        closed_under_reading(st, t, root, all),
        within(st, t, root, n, b),
    ensures
        match b {
            Node::Whole(id) => all(id, v),
            Node::Version(id, w) => all(id, w),
        },
    decreases n,
{
    if n > 0 {
        let m = (n - 1) as nat;
        if within(st, t, root, m, b) {
            lemma_reached_is_in(st, t, root, all, m, b, v);
        } else {
            let a = choose|a: Node|
                #![trigger steps(st, t, a, b)]
                within(st, t, root, m, a) && steps(st, t, a, b);
            let (d, dv) = choose|d: Seq<char>, dv: u64| #[trigger]
                absorbed(st, t, a, d, dv) && b == target(st, t, d, dv);
            let (s, sv) = choose|s: Seq<char>, sv: u64|
                covers(a, s, sv) && #[trigger] st.edges.contains_key((t, (s, (sv, (d, dv)))));
            lemma_reached_is_in(st, t, root, all, m, a, sv);
            assert(all(s, sv));
            assert(all(d, dv));
        }
    }
}

/// A cascade takes no more than it must: whatever set of versions has the root, and
/// what read something of it, and whole ids with what is believed of them, has
/// everything that the cascade erases.
pub proof fn law_cascade_takes_no_more(
    st: MemoryState,
    t: Seq<char>,
    root: Seq<char>,
    all: spec_fn(Seq<char>, u64) -> bool,
    id: Seq<char>,
    v: u64,
)
    requires
        st.wf(),
        closed_under_reading(st, t, root, all),
        !all(id, v),
    ensures
        !doomed(st, t, root, id, v),
        st.items.contains_key((t, (id, v))) ==> cascaded(st, t, root).items.contains_key(
            (t, (id, v)),
        ) && cascaded(st, t, root).items[(t, (id, v))] == st.items[(t, (id, v))],
{
    if reached(st, t, root, Node::Whole(id)) {
        let n = choose|n: nat| within(st, t, root, n, Node::Whole(id));
        lemma_reached_is_in(st, t, root, all, n, Node::Whole(id), v);
    }
    if reached(st, t, root, Node::Version(id, v)) {
        let n = choose|n: nat| within(st, t, root, n, Node::Version(id, v));
        lemma_reached_is_in(st, t, root, all, n, Node::Version(id, v), v);
    }
}

/// A cascade stops at nothing: it erases the root, whatever read something that it
/// erases, and the whole of an id whose believed version it erases; and such an id
/// is gone for good.
pub proof fn law_cascade_goes_all_the_way(
    st: MemoryState,
    t: Seq<char>,
    root: Seq<char>,
    s: Seq<char>,
    sv: u64,
    d: Seq<char>,
    dv: u64,
    w: u64,
)
    requires
        st.wf(),
    ensures
        doomed(st, t, root, root, w),
        gone(cascaded(st, t, root), t, root),
        st.edges.contains_key((t, (s, (sv, (d, dv))))) && doomed(st, t, root, s, sv) ==> {
            &&& doomed(st, t, root, d, dv)
            &&& !cascaded(st, t, root).items.contains_key((t, (d, dv)))
            &&& st.current.contains_key((t, d)) && st.current[(t, d)].version == dv ==> gone(
                cascaded(st, t, root),
                t,
                d,
            )
        },
        doomed(st, t, root, d, dv) && st.items.contains_key((t, (d, dv))) ==> emptied(
            st,
            t,
            root,
        ).contains(d),
        emptied(st, t, root).contains(d) ==> exists|v: u64| #[trigger]
            st.items.contains_key((t, (d, v))) && doomed(st, t, root, d, v),
        st.holds.contains_key((t, d)) && doomed(st, t, root, d, dv) ==> cascade_held(st, t, root),
        cascade_held(st, t, root) ==> exists|id: Seq<char>, v: u64|
            st.holds.contains_key((t, id)) && #[trigger] doomed(st, t, root, id, v),
{
    assert(within(st, t, root, 0, Node::Whole(root)));
    assert(reached(st, t, root, Node::Whole(root)));
    if st.edges.contains_key((t, (s, (sv, (d, dv))))) && doomed(st, t, root, s, sv) {
        let a = if reached(st, t, root, Node::Whole(s)) {
            Node::Whole(s)
        } else {
            Node::Version(s, sv)
        };
        assert(covers(a, s, sv));
        assert(absorbed(st, t, a, d, dv));
        assert(steps(st, t, a, target(st, t, d, dv)));
        let n = choose|n: nat| within(st, t, root, n, a);
        assert(within(st, t, root, n + 1, target(st, t, d, dv)));
        assert(reached(st, t, root, target(st, t, d, dv)));
    }
    if st.holds.contains_key((t, d)) && doomed(st, t, root, d, dv) {
        assert(touched(st, t, root, d));
    }
    if cascade_held(st, t, root) {
        let m = choose|m: Seq<char>| #[trigger]
            touched(st, t, root, m) && st.holds.contains_key((t, m));
        let v = choose|v: u64| #[trigger] doomed(st, t, root, m, v);
        assert(st.holds.contains_key((t, m)) && doomed(st, t, root, m, v));
    }
}

// ── Holds and windows ───────────────────────────────────────────────────────

/// A memory is held until it is let go: no erasure takes it meanwhile. What is not
/// believed cannot be held, and holding one memory holds no other.
pub proof fn law_hold_is_read_back(
    st: MemoryState,
    t: Seq<char>,
    id: Seq<char>,
    held: bool,
    other: Name,
)
    ensures
        hold_refusal(st, t, id, held) is Some <==> held && !st.current.contains_key((t, id)),
        is_held(hold_set(st, t, id, held), t, id) == held,
        other != (t, id) ==> is_held(hold_set(st, t, id, held), other.0, other.1) == is_held(
            st,
            other.0,
            other.1,
        ),
        forget_refusal(hold_set(st, t, id, held), t, id) is Some <==> held,
        other != (t, id) ==> untouched(st, hold_set(st, t, id, held), other),
        hold_set(st, t, id, held).items == st.items,
        hold_set(st, t, id, held).current == st.current,
        hold_set(st, t, id, held).edges == st.edges,
{
}

/// An access renews the windows of the memories that it names and that have one,
/// and no others: each closes as long after the access as its memory asks for,
/// unless it was open longer.
pub proof fn law_access_renews_its_windows(
    st: MemoryState,
    t: Seq<char>,
    ids: Seq<String>,
    at: i64,
    name: Name,
)
    requires
        st.wf(),
    ensures
        ({
            let after = touched_windows(st, t, ids, ids.len() as int, at);
            let item = st.items[(name.0, (name.1, st.current[name].version))];
            let renewed = name.0 == t && st.current.contains_key(name)
                && item.access_retention_seconds is Some && exists|i: int|
                0 <= i < ids.len() && (#[trigger] ids[i])@ == name.1;
            let asked = at + at_most(item.access_retention_seconds->0);
            &&& !renewed ==> after.contains_key(name) == st.access.contains_key(name)
            &&& !renewed && st.access.contains_key(name) ==> after[name] == st.access[name]
            &&& renewed ==> after.contains_key(name)
            &&& renewed && asked <= i64::MAX ==> after[name] >= asked
            &&& renewed && asked <= i64::MAX ==> after[name] == asked || (
            st.access.contains_key(name) && after[name] == st.access[name])
            &&& renewed && st.access.contains_key(name) ==> after[name] >= st.access[name]
        }),
{
}

// ── Lineage ─────────────────────────────────────────────────────────────────

/// The derivatives of a memory are the memories whose believed version read some
/// version of it: all of them, each once, as they are believed.
pub proof fn law_derivatives_read_the_source(
    st: MemoryState,
    t: Seq<char>,
    source: Seq<char>,
    out: Seq<ItemModel>,
    edges: Seq<Link>,
    id: Seq<char>,
)
    requires
        st.wf(),
        derivation(st, t, source, out, edges),
    ensures
        forall|i: int|
            0 <= i < out.len() ==> {
                let x = #[trigger] out[i];
                &&& st.current.contains_key((t, x.id))
                &&& st.items[(t, (x.id, st.current[(t, x.id)].version))] == x
                &&& exists|sv: u64| #[trigger]
                    st.edges.contains_key((t, (source, (sv, (x.id, x.version)))))
            },
        st.current.contains_key((t, id)) && (exists|sv: u64| #[trigger]
            st.edges.contains_key(
                (t, (source, (sv, (id, st.current[(t, id)].version)))),
            )) ==> exists|i: int| 0 <= i < out.len() && (#[trigger] out[i]).id == id,
{
    assert forall|i: int| 0 <= i < out.len() implies {
        let x = #[trigger] out[i];
        &&& st.current.contains_key((t, x.id))
        &&& st.items[(t, (x.id, st.current[(t, x.id)].version))] == x
        &&& exists|sv: u64| #[trigger]
            st.edges.contains_key((t, (source, (sv, (x.id, x.version)))))
    } by {
        let x = out[i];
        assert(derives(st, t, source, x.id));
        let v = st.current[(t, x.id)].version;
        assert(st.items.contains_key((t, (x.id, v))));
        let (s, sv) = choose|s: Seq<char>, sv: u64|
            covers(Node::Whole(source), s, sv) && #[trigger] st.edges.contains_key(
                (t, (s, (sv, (x.id, v)))),
            );
        assert(st.edges.contains_key((t, (source, (sv, (x.id, x.version))))));
    }
    if st.current.contains_key((t, id)) && exists|sv: u64| #[trigger]
        st.edges.contains_key((t, (source, (sv, (id, st.current[(t, id)].version))))) {
        let sv = choose|sv: u64| #[trigger]
            st.edges.contains_key((t, (source, (sv, (id, st.current[(t, id)].version)))));
        assert(covers(Node::Whole(source), source, sv));
        assert(derives(st, t, source, id));
    }
}

/// What was made of a memory comes in the order of the versions that it was made of,
/// each under the first version that it reads, and by id among those of one version.
pub proof fn law_derivatives_come_in_order(
    st: MemoryState,
    t: Seq<char>,
    source: Seq<char>,
    out: Seq<ItemModel>,
    edges: Seq<Link>,
    i: int,
    j: int,
    sv: u64,
)
    requires
        st.wf(),
        derivation(st, t, source, out, edges),
        0 <= i < out.len(),
    ensures
        st.edges.contains_key((t, (source, (edges[i].1.1.0, (out[i].id, out[i].version))))),
        st.edges.contains_key((t, (source, (sv, (out[i].id, out[i].version))))) ==> edges[i].1.1.0
            <= sv,
        i < j < out.len() ==> edges[i].1.1.0 < edges[j].1.1.0 || (edges[i].1.1.0 == edges[j].1.1.0
            && text_before(out[i].id, out[j].id)),
{
    let a = out[i].id;
    assert(derives(st, t, source, a));
    assert(st.items.contains_key((t, (a, st.current[(t, a)].version))));
    assert(edges[i] == (t, (source, (edges[i].1.1.0, (a, out[i].version)))));
    if i < j < out.len() {
        let b = out[j].id;
        assert(derives(st, t, source, b));
        assert(st.items.contains_key((t, (b, st.current[(t, b)].version))));
        assert(edges[j] == (t, (source, (edges[j].1.1.0, (b, out[j].version)))));
        assert(crate::memory::LinkKey::precedes(edges[i], edges[j]));
        <String as Key>::lemma_irreflexive(t);
        <String as Key>::lemma_irreflexive(source);
        if a == b {
            <String as Key>::lemma_irreflexive(a);
        }
    }
}

} // verus!
