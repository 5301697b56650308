//! What governed memory on a shared database answers and keeps, said of its tables.

use vstd::prelude::*;

use crate::memory::{
    better, covers, derives, erased, source_refusal, standing, ItemModel, MemoryState, Name, Node,
    Recall,
};
use crate::memory_laws::{gone, leads, lemma_leads, untouched};
use crate::postgres_memory::{
    derivation_shared, expired_by_second, newness, recalled_shared, shared_refusal,
    shared_sources_refusal, wanted_shared,
};
use crate::table::{text_before, Key, Newest};

verus! {

/// Whether a memory has come to its end by a second: the second that it expires in
/// is no later, or its window has closed.
pub open spec fn over_by(st: MemoryState, name: Name, item: ItemModel, secs: i64) -> bool {
    ||| item.expires_at is Some && item.expires_at->0.secs <= secs
    ||| st.access.contains_key(name) && st.access[name] <= secs
}

/// A recall from a shared database answers with what was asked for and nothing
/// else: about the subject, kept for the purpose where one is named, believed now,
/// and not at its end by the second that was asked of. None comes twice, and there
/// are no more than were asked for.
pub proof fn law_shared_recall_answers_what_was_asked(
    st: MemoryState,
    t: Seq<char>,
    q: Recall,
    out: Seq<ItemModel>,
    i: int,
    j: int,
)
    requires
        st.wf(),
        recalled_shared(st, t, q, out),
        0 <= i < out.len(),
        0 <= j < out.len(),
    ensures
        out.len() <= q.limit,
        out[i].subject == q.subject@,
        q.purpose is Some ==> out[i].purpose == q.purpose->0@,
        st.current.contains_key((t, out[i].id)),
        out[i].version == st.current[(t, out[i].id)].version,
        st.items[(t, (out[i].id, out[i].version))] == out[i],
        q.as_of is Some ==> !over_by(st, (t, out[i].id), out[i], q.as_of->0.secs),
        i != j ==> out[i].id != out[j].id,
        i < j ==> leads(out[i], out[j]),
{
    let name = (t, out[i].id);
    assert(wanted_shared(st, t, q, out[i].id));
    assert(wanted_shared(st, t, q, out[j].id));
    assert(st.items.contains_key((t, (out[i].id, st.current[name].version))));
    if i < j {
        lemma_leads(st, t, out[i].id, out[j].id);
        assert(better(standing(st, t, out[i].id), standing(st, t, out[j].id)));
    }
    if i != j && out[i].id == out[j].id {
        let s = standing(st, t, out[i].id);
        if i < j {
            assert(better(standing(st, t, out[i].id), standing(st, t, out[j].id)));
        } else {
            assert(better(standing(st, t, out[j].id), standing(st, t, out[i].id)));
        }
        <(u64, (Newest, String)) as Key>::lemma_irreflexive(s);
    }
}

/// A recall from a shared database passes nothing over: what was asked for is
/// answered where there is room; where there is none, everything in the answer
/// comes before it.
pub proof fn law_shared_recall_leaves_nothing_out(
    st: MemoryState,
    t: Seq<char>,
    q: Recall,
    out: Seq<ItemModel>,
    id: Seq<char>,
    i: int,
)
    requires
        st.wf(),
        recalled_shared(st, t, q, out),
        st.current.contains_key((t, id)),
        ({
            let item = st.items[(t, (id, st.current[(t, id)].version))];
            &&& item.subject == q.subject@
            &&& q.purpose is Some ==> item.purpose == q.purpose->0@
            &&& q.as_of is Some ==> !over_by(st, (t, id), item, q.as_of->0.secs)
        }),
        forall|j: int| 0 <= j < out.len() ==> (#[trigger] out[j]).id != id,
    ensures
        out.len() == q.limit,
        0 <= i < out.len() ==> leads(out[i], st.items[(t, (id, st.current[(t, id)].version))]),
{
    assert(st.items.contains_key((t, (id, st.current[(t, id)].version))));
    assert(wanted_shared(st, t, q, id));
    if 0 <= i < out.len() {
        assert(wanted_shared(st, t, q, out[i].id));
        lemma_leads(st, t, out[i].id, id);
        assert(better(standing(st, t, out[i].id), standing(st, t, id)));
    }
}

/// A sweep of a shared database takes exactly the memories of the tenant that have
/// come to their end by the second and are not held: all of each, and nothing of
/// any other.
pub proof fn law_shared_sweep_takes_what_has_ended(
    st: MemoryState,
    t: Seq<char>,
    secs: i64,
    name: Name,
)
    requires
        st.wf(),
    ensures
        ({
            let fallen = expired_by_second(st, t, secs);
            let after = erased(st, t, fallen);
            let item = st.items[(name.0, (name.1, st.current[name].version))];
            let falls = name.0 == t && st.current.contains_key(name) && !st.holds.contains_key(
                name,
            ) && over_by(st, name, item, secs);
            &&& falls ==> gone(after, t, name.1) && fallen.contains(name.1)
            &&& !falls ==> untouched(st, after, name)
            &&& name.0 == t && !falls ==> !fallen.contains(name.1)
        }),
{
}

proof fn lemma_no_shared_source_refused(st: MemoryState, t: Seq<char>, item: ItemModel, n: int)
    ensures
        shared_sources_refusal(st, t, item, n) is None <==> forall|i: int|
            #![trigger item.derived_from[i]]
            0 <= i < n ==> item.derived_from[i].version <= i64::MAX && source_refusal(
                st,
                t,
                item,
                i,
            ) is None,
    decreases n,
{
    if n > 0 {
        lemma_no_shared_source_refused(st, t, item, n - 1);
        let _last = item.derived_from[n - 1];
    }
}

/// A shared database refuses a memory exactly where it must be refused, as any
/// memory is, and where a version would not fit a column: one that it names, or
/// the one that it would get.
pub proof fn law_shared_remembering_is_refused(st: MemoryState, t: Seq<char>, item: ItemModel)
    requires
        st.wf(),
    ensures
        shared_refusal(st, t, item) is None <==> {
            &&& !st.forgotten.contains_key((t, item.id))
            &&& st.current.contains_key((t, item.id)) ==> {
                &&& st.current[(t, item.id)].subject == item.subject
                &&& st.current[(t, item.id)].purpose == item.purpose
                &&& st.current[(t, item.id)].version < i64::MAX
            }
            &&& forall|i: int|
                #![trigger item.derived_from[i]]
                0 <= i < item.derived_from.len() ==> {
                    let s = item.derived_from[i];
                    &&& s.version <= i64::MAX
                    &&& st.items.contains_key((t, (s.id, s.version)))
                    &&& st.items[(t, (s.id, s.version))].digest == s.digest
                    &&& st.items[(t, (s.id, s.version))].subject == item.subject
                }
        },
{
    lemma_no_shared_source_refused(st, t, item, item.derived_from.len() as int);
    if st.forgotten.contains_key((t, item.id)) {
        assert(!st.current.contains_key((t, item.id)));
    }
}

/// What a shared database gives as made of a memory is what is believed now and has
/// a version of that memory among its sources: all of it, each once, the newest
/// first and by id among those of one second.
pub proof fn law_shared_derivatives_read_the_source(
    st: MemoryState,
    t: Seq<char>,
    source: Seq<char>,
    out: Seq<ItemModel>,
    id: Seq<char>,
)
    requires
        st.wf(),
        derivation_shared(st, t, source, out),
    ensures
        forall|i: int|
            0 <= i < out.len() ==> {
                let x = #[trigger] out[i];
                &&& st.current.contains_key((t, x.id))
                &&& st.items[(t, (x.id, st.current[(t, x.id)].version))] == x
                &&& exists|sv: u64| #[trigger]
                    st.edges.contains_key((t, (source, (sv, (x.id, x.version)))))
            },
        forall|i: int, j: int|
            0 <= i < j < out.len() ==> {
                let a = #[trigger] out[i];
                let b = #[trigger] out[j];
                a.created_at.secs > b.created_at.secs || (a.created_at.secs == b.created_at.secs
                    && text_before(a.id, b.id))
            },
        st.current.contains_key((t, id)) && (exists|sv: u64| #[trigger]
            st.edges.contains_key(
                (t, (source, (sv, (id, st.current[(t, id)].version)))),
            )) ==> exists|i: int| 0 <= i < out.len() && (#[trigger] out[i]).id == id,
{
    assert forall|i: int| 0 <= i < out.len() implies {
        let x = #[trigger] out[i];
        &&& st.current.contains_key((t, x.id))
        &&& st.items[(t, (x.id, st.current[(t, x.id)].version))] == x
        &&& exists|sv: u64| #[trigger]
            st.edges.contains_key((t, (source, (sv, (x.id, x.version)))))
    } by {
        let x = out[i];
        assert(derives(st, t, source, x.id));
        let v = st.current[(t, x.id)].version;
        assert(st.items.contains_key((t, (x.id, v))));
        let (s, sv) = choose|s: Seq<char>, sv: u64|
            covers(Node::Whole(source), s, sv) && #[trigger] st.edges.contains_key(
                (t, (s, (sv, (x.id, v)))),
            );
        assert(st.edges.contains_key((t, (source, (sv, (x.id, x.version))))));
    }
    assert forall|i: int, j: int| 0 <= i < j < out.len() implies {
        let a = #[trigger] out[i];
        let b = #[trigger] out[j];
        a.created_at.secs > b.created_at.secs || (a.created_at.secs == b.created_at.secs
            && text_before(a.id, b.id))
    } by {
        assert(<(Newest, String)>::precedes(newness(out[i]), newness(out[j])));
    }
    if st.current.contains_key((t, id)) && exists|sv: u64| #[trigger]
        st.edges.contains_key((t, (source, (sv, (id, st.current[(t, id)].version))))) {
        let sv = choose|sv: u64| #[trigger]
            st.edges.contains_key((t, (source, (sv, (id, st.current[(t, id)].version)))));
        assert(covers(Node::Whole(source), source, sv));
        assert(derives(st, t, source, id));
    }
}

} // verus!
