//! What holds of batches across operations.

use vstd::prelude::*;

use crate::batches::{
    batch_rows, counted, has_run_out, is_frontier, item_read, items_read, law_outcome_round_trip,
    money_spent, of_batch, open_refusal, opened, outcome_read, outcome_word, plan_of, recorded,
    recorded_row, reserved, reserved_row, run_out, tokens_spent, with_outcome, without_outcome,
    BatchCensus, BatchState, ItemKey, ItemModel, ItemRowModel, OutcomeModel, Spend,
};
use crate::error::Refusal;
use crate::table::{
    has_key, lemma_chosen, lemma_chosen_changes, lemma_chosen_gains, page, text_before, Key,
};

verus! {

// ── The census ──────────────────────────────────────────────────────────────

/// The words of the outcomes are five.
proof fn lemma_words(a: OutcomeModel, b: OutcomeModel)
    ensures
        outcome_word(a) == outcome_word(b) <==> {
            ||| a is Succeeded && b is Succeeded
            ||| a is Failed && b is Failed
            ||| a is Quarantined && b is Quarantined
            ||| a is Suspended && b is Suspended
            ||| a is Exhausted && b is Exhausted
        },
{
    reveal_strlit("succeeded");
    reveal_strlit("failed");
    reveal_strlit("quarantined");
    reveal_strlit("suspended");
    reveal_strlit("exhausted");
    assert("succeeded"@.len() == 9 && "succeeded"@[0] == 's' && "succeeded"@[2] == 'c');
    assert("failed"@.len() == 6 && "quarantined"@.len() == 11);
    assert("suspended"@.len() == 9 && "suspended"@[0] == 's' && "suspended"@[2] == 's');
    assert("exhausted"@.len() == 9 && "exhausted"@[0] == 'e');
}

/// One where something holds, and nothing where it does not.
spec fn one_if(b: bool) -> nat {
    if b {
        1
    } else {
        0
    }
}

/// Rows that differ in one place.
proof fn lemma_one_changes(
    rows: Seq<(ItemKey, ItemRowModel)>,
    p: int,
    x: (ItemKey, ItemRowModel),
    word: Seq<char>,
)
    requires
        0 <= p < rows.len(),
    ensures
        with_outcome(rows.update(p, x), word) + one_if(
            rows[p].1.has_outcome == 1 && rows[p].1.outcome == word,
        ) == with_outcome(rows, word) + one_if(x.1.has_outcome == 1 && x.1.outcome == word),
        without_outcome(rows.update(p, x)) + one_if(rows[p].1.has_outcome != 1)
            == without_outcome(rows) + one_if(x.1.has_outcome != 1),
        tokens_spent(rows.update(p, x)) + rows[p].1.spend.tokens == tokens_spent(rows)
            + x.1.spend.tokens,
        money_spent(rows.update(p, x)) + rows[p].1.spend.minor_units == money_spent(rows)
            + x.1.spend.minor_units,
    decreases rows.len(),
{
    let after = rows.update(p, x);
    if p == rows.len() - 1 {
        assert(after.drop_last() =~= rows.drop_last());
    } else {
        assert(after.drop_last() =~= rows.drop_last().update(p, x));
        assert(after.last() == rows.last());
        lemma_one_changes(rows.drop_last(), p, x, word);
    }
}

/// Rows with one more.
proof fn lemma_one_comes(
    rows: Seq<(ItemKey, ItemRowModel)>,
    p: int,
    x: (ItemKey, ItemRowModel),
    word: Seq<char>,
)
    requires
        0 <= p <= rows.len(),
    ensures
        with_outcome(rows.insert(p, x), word) == with_outcome(rows, word) + one_if(
            x.1.has_outcome == 1 && x.1.outcome == word,
        ),
        without_outcome(rows.insert(p, x)) == without_outcome(rows) + one_if(
            x.1.has_outcome != 1,
        ),
        tokens_spent(rows.insert(p, x)) == tokens_spent(rows) + x.1.spend.tokens,
        money_spent(rows.insert(p, x)) == money_spent(rows) + x.1.spend.minor_units,
    decreases rows.len(),
{
    let after = rows.insert(p, x);
    if p == rows.len() {
        assert(after.drop_last() =~= rows);
    } else {
        assert(after.drop_last() =~= rows.drop_last().insert(p, x));
        assert(after.last() == rows.last());
        lemma_one_comes(rows.drop_last(), p, x, word);
    }
}

/// How a counter of the census follows an item whose outcome changes.
pub open spec fn follows(before: u64, after: u64, left: bool, came: bool) -> bool {
    after == before + (if came {
        1int
    } else {
        0
    }) - (if left {
        1int
    } else {
        0
    })
}

/// Recording an outcome moves the item to the counter of that outcome, from the
/// one of the outcome it had or from those in flight, and leaves every other
/// counter; what it spent takes the place of what it had spent.
pub proof fn law_recording_moves_the_counter(
    st: BatchState,
    t: Seq<char>,
    b: Seq<char>,
    item: Seq<char>,
    o: OutcomeModel,
    spend: Spend,
    before: BatchCensus,
    after: BatchCensus,
    had: Option<OutcomeModel>,
)
    requires
        st.items.dom().finite(),
        st.items.contains_key((t, (b, item))),
        outcome_read(
            st.items[(t, (b, item))].has_outcome,
            st.items[(t, (b, item))].outcome,
            st.items[(t, (b, item))].detail,
        ) == Ok::<Option<OutcomeModel>, Refusal>(had),
        counted(batch_rows(st, t, b), before),
        counted(batch_rows(recorded(st, t, b, item, o, spend), t, b), after),
    ensures
        follows(before.in_flight, after.in_flight, had is None, false),
        follows(
            before.succeeded,
            after.succeeded,
            had is Some && had->0 is Succeeded,
            o is Succeeded,
        ),
        follows(before.failed, after.failed, had is Some && had->0 is Failed, o is Failed),
        follows(
            before.quarantined,
            after.quarantined,
            had is Some && had->0 is Quarantined,
            o is Quarantined,
        ),
        follows(
            before.suspended,
            after.suspended,
            had is Some && had->0 is Suspended,
            o is Suspended,
        ),
        follows(
            before.exhausted,
            after.exhausted,
            had is Some && had->0 is Exhausted,
            o is Exhausted,
        ),
        after.spend.tokens + st.items[(t, (b, item))].spend.tokens == before.spend.tokens
            + spend.tokens,
        after.spend.minor_units + st.items[(t, (b, item))].spend.minor_units
            == before.spend.minor_units + spend.minor_units,
{
    let k = (t, (b, item));
    let row = st.items[k];
    let new = recorded_row(row, o, spend);
    let rows = batch_rows(st, t, b);
    let p = lemma_chosen_changes::<(String, (String, String)), ItemRowModel>(
        st.items,
        of_batch(t, b),
        k,
        new,
    );
    lemma_one_changes(rows, p, (k, new), outcome_word(OutcomeModel::Succeeded));
    lemma_one_changes(rows, p, (k, new), outcome_word(OutcomeModel::Failed(item)));
    lemma_one_changes(rows, p, (k, new), outcome_word(OutcomeModel::Quarantined(item)));
    lemma_one_changes(rows, p, (k, new), outcome_word(OutcomeModel::Suspended(item)));
    lemma_one_changes(rows, p, (k, new), outcome_word(OutcomeModel::Exhausted(item)));
    lemma_told_apart(o, item);
    if let Some(h) = had {
        assert(row.outcome == outcome_word(h));
        lemma_told_apart(h, item);
    }
}

proof fn lemma_told_apart(o: OutcomeModel, d: Seq<char>)
    ensures
        outcome_word(o) == outcome_word(OutcomeModel::Succeeded) <==> o is Succeeded,
        outcome_word(o) == outcome_word(OutcomeModel::Failed(d)) <==> o is Failed,
        outcome_word(o) == outcome_word(OutcomeModel::Quarantined(d)) <==> o is Quarantined,
        outcome_word(o) == outcome_word(OutcomeModel::Suspended(d)) <==> o is Suspended,
        outcome_word(o) == outcome_word(OutcomeModel::Exhausted(d)) <==> o is Exhausted,
{
    lemma_words(o, OutcomeModel::Succeeded);
    lemma_words(o, OutcomeModel::Failed(d));
    lemma_words(o, OutcomeModel::Quarantined(d));
    lemma_words(o, OutcomeModel::Suspended(d));
    lemma_words(o, OutcomeModel::Exhausted(d));
}

/// Reserving an item that is new adds one in flight that has spent nothing, and
/// reserving it again adds nothing; a batch without items has nothing to count.
pub proof fn law_reserving_adds_one_in_flight(
    st: BatchState,
    t: Seq<char>,
    b: Seq<char>,
    item: Seq<char>,
    run: Seq<char>,
    before: BatchCensus,
    after: BatchCensus,
)
    requires
        st.items.dom().finite(),
        counted(batch_rows(st, t, b), before),
        counted(batch_rows(reserved(st, t, b, item, run), t, b), after),
    ensures
        after.in_flight == before.in_flight + (if st.items.contains_key((t, (b, item))) {
            0int
        } else {
            1
        }),
        after.succeeded == before.succeeded,
        after.failed == before.failed,
        after.quarantined == before.quarantined,
        after.suspended == before.suspended,
        after.exhausted == before.exhausted,
        after.spend == before.spend,
        (forall|k: ItemKey| #[trigger] st.items.contains_key(k) ==> k.0 != t || k.1.0 != b) ==> {
            &&& before.in_flight == 0
            &&& before.succeeded == 0
            &&& before.failed == 0
            &&& before.quarantined == 0
            &&& before.suspended == 0
            &&& before.exhausted == 0
            &&& before.spend.tokens == 0
            &&& before.spend.minor_units == 0
        },
{
    let k = (t, (b, item));
    let rows = batch_rows(st, t, b);
    let f = of_batch(t, b);
    if !st.items.contains_key(k) {
        let new = reserved_row(run);
        let p = lemma_chosen_gains::<(String, (String, String)), ItemRowModel>(
            st.items,
            f,
            k,
            new,
        );
        lemma_one_comes(rows, p, (k, new), "succeeded"@);
        lemma_one_comes(rows, p, (k, new), "failed"@);
        lemma_one_comes(rows, p, (k, new), "quarantined"@);
        lemma_one_comes(rows, p, (k, new), "suspended"@);
        lemma_one_comes(rows, p, (k, new), "exhausted"@);
    }
    lemma_chosen::<(String, (String, String)), ItemRowModel>(st.items, f);
    if forall|k: ItemKey| #[trigger] st.items.contains_key(k) ==> k.0 != t || k.1.0 != b {
        if rows.len() > 0 {
            assert(st.items.contains_key(rows[0].0) && f(rows[0]));
        }
    }
}

/// An item whose outcome is recorded moves no counter of another batch.
pub proof fn law_census_is_a_batchs_own(
    st: BatchState,
    t: Seq<char>,
    b: Seq<char>,
    item: Seq<char>,
    o: OutcomeModel,
    spend: Spend,
    run: Seq<char>,
    other: (Seq<char>, Seq<char>),
)
    requires
        st.items.dom().finite(),
        other != (t, b),
    ensures
        batch_rows(recorded(st, t, b, item, o, spend), other.0, other.1) == batch_rows(
            st,
            other.0,
            other.1,
        ),
        batch_rows(reserved(st, t, b, item, run), other.0, other.1) == batch_rows(
            st,
            other.0,
            other.1,
        ),
{
    let f = of_batch(other.0, other.1);
    crate::table::lemma_chosen_alike::<(String, (String, String)), ItemRowModel>(
        recorded(st, t, b, item, o, spend).items,
        st.items,
        f,
        f,
    );
    crate::table::lemma_chosen_alike::<(String, (String, String)), ItemRowModel>(
        reserved(st, t, b, item, run).items,
        st.items,
        f,
        f,
    );
}

// ── The cursor ──────────────────────────────────────────────────────────────

/// The cursor stands where a resume may go on: every item up to it succeeded,
/// failed or was quarantined, and the item behind it has no outcome, waits or ran
/// out. Without a cursor that is the first item of the batch.
pub proof fn law_cursor_stands_before_open_work(
    st: BatchState,
    t: Seq<char>,
    b: Seq<char>,
    n: nat,
    i: int,
    read: Option<OutcomeModel>,
)
    requires
        st.items.dom().finite(),
        is_frontier(batch_rows(st, t, b), n),
        0 <= i < batch_rows(st, t, b).len(),
        outcome_read(
            batch_rows(st, t, b)[i].1.has_outcome,
            batch_rows(st, t, b)[i].1.outcome,
            batch_rows(st, t, b)[i].1.detail,
        ) == Ok::<Option<OutcomeModel>, Refusal>(read),
    ensures
        i < n ==> read is Some && (read->0 is Succeeded || read->0 is Failed
            || read->0 is Quarantined),
        i == n ==> read is None || read->0 is Suspended || read->0 is Exhausted,
        n <= batch_rows(st, t, b).len(),
{
    let row = batch_rows(st, t, b)[i].1;
    if let Some(o) = read {
        assert(row.outcome == outcome_word(o));
        lemma_told_apart(o, row.detail);
    }
}

// ── Items ───────────────────────────────────────────────────────────────────

/// The items of a batch are its own, each once, by their keys: where the limit has
/// room every one of them is given, and each as it reads.
pub proof fn law_items_are_all_given(
    st: BatchState,
    t: Seq<char>,
    b: Seq<char>,
    limit: usize,
    out: Seq<ItemModel>,
    item: Seq<char>,
)
    requires
        st.items.dom().finite(),
        items_read(batch_rows(st, t, b), page(batch_rows(st, t, b).len(), limit)) == Ok::<
            Seq<ItemModel>,
            Refusal,
        >(out),
    ensures
        out.len() <= limit,
        forall|i: int|
            0 <= i < out.len() ==> st.items.contains_key((t, (b, (#[trigger] out[i]).key)))
                && item_read(out[i].key, st.items[(t, (b, out[i].key))]) == Ok::<
                ItemModel,
                Refusal,
            >(out[i]),
        forall|i: int, j: int|
            0 <= i < j < out.len() ==> text_before((#[trigger] out[i]).key, (#[trigger] out[j]).key),
        st.items.contains_key((t, (b, item))) && (forall|i: int|
            0 <= i < out.len() ==> (#[trigger] out[i]).key != item) ==> out.len() == limit
            && forall|i: int| 0 <= i < out.len() ==> text_before((#[trigger] out[i]).key, item),
{
    let rows = batch_rows(st, t, b);
    let f = of_batch(t, b);
    let n = page(rows.len(), limit);
    lemma_chosen::<(String, (String, String)), ItemRowModel>(st.items, f);
    lemma_each_item(rows, n);
    assert forall|i: int| 0 <= i < out.len() implies st.items.contains_key(
        (t, (b, (#[trigger] out[i]).key)),
    ) && item_read(out[i].key, st.items[(t, (b, out[i].key))]) == Ok::<ItemModel, Refusal>(out[i])
        && rows[i].0 == (t, (b, out[i].key)) by {
        assert(item_read(rows[i].0.1.1, rows[i].1) == Ok::<ItemModel, Refusal>(out[i]));
        assert(f(rows[i]) && st.items.contains_key(rows[i].0));
    }
    assert forall|i: int, j: int| 0 <= i < j < out.len() implies text_before(
        (#[trigger] out[i]).key,
        (#[trigger] out[j]).key,
    ) by {
        assert(<(String, (String, String)) as Key>::precedes(rows[i].0, rows[j].0));
        <String as Key>::lemma_irreflexive(t);
        <String as Key>::lemma_irreflexive(b);
    }
    let k = (t, (b, item));
    if st.items.contains_key(k) {
        assert(f((k, st.items[k])));
        assert(has_key(rows, k));
        let p = choose|p: int| 0 <= p < rows.len() && (#[trigger] rows[p]).0 == k;
        if p < n {
            assert(out[p].key == item);
        } else {
            assert forall|i: int| 0 <= i < out.len() implies text_before(
                (#[trigger] out[i]).key,
                item,
            ) by {
                assert(<(String, (String, String)) as Key>::precedes(rows[i].0, rows[p].0));
                <String as Key>::lemma_irreflexive(t);
                <String as Key>::lemma_irreflexive(b);
            }
        }
    }
}

proof fn lemma_each_item(rows: Seq<(ItemKey, ItemRowModel)>, n: int)
    requires
        0 <= n <= rows.len(),
        items_read(rows, n) is Ok,
    ensures
        items_read(rows, n)->Ok_0.len() == n,
        forall|i: int|
            0 <= i < n ==> item_read((#[trigger] rows[i]).0.1.1, rows[i].1) == Ok::<
                ItemModel,
                Refusal,
            >(items_read(rows, n)->Ok_0[i]),
    decreases n,
{
    if n > 0 {
        lemma_each_item(rows, n - 1);
        let before = items_read(rows, n - 1)->Ok_0;
        let after = items_read(rows, n)->Ok_0;
        assert forall|i: int| 0 <= i < n implies item_read(
            (#[trigger] rows[i]).0.1.1,
            rows[i].1,
        ) == Ok::<ItemModel, Refusal>(after[i]) by {
            if i < n - 1 {
                assert(after[i] == before[i]);
            }
        }
    }
}

/// An item reads as it was reserved until its outcome is recorded, and as it was
/// recorded then: the run it was reserved for, how it ended and what it spent.
/// Neither touches another item, nor any batch.
pub proof fn law_items_read_back(
    st: BatchState,
    t: Seq<char>,
    b: Seq<char>,
    item: Seq<char>,
    run: Seq<char>,
    o: OutcomeModel,
    spend: Spend,
    k: ItemKey,
)
    requires
        !st.items.contains_key((t, (b, item))),
    ensures
        ({
            let here = (t, (b, item));
            let first = reserved(st, t, b, item, run);
            let after = recorded(first, t, b, item, o, spend);
            &&& item_read(item, first.items[here]) == Ok::<ItemModel, Refusal>(
                ItemModel {
                    key: item,
                    run,
                    outcome: None,
                    spend: Spend { tokens: 0, minor_units: 0 },
                },
            )
            &&& item_read(item, after.items[here]) == Ok::<ItemModel, Refusal>(
                ItemModel { key: item, run, outcome: Some(o), spend },
            )
            &&& k != here ==> first.items.contains_key(k) == st.items.contains_key(k)
                && after.items.contains_key(k) == st.items.contains_key(k)
            &&& st.items.contains_key(k) ==> first.items[k] == st.items[k] && after.items[k]
                == st.items[k]
            &&& first.batches == st.batches
            &&& after.batches == st.batches
        }),
{
    law_outcome_round_trip(o);
}

// ── The batch ───────────────────────────────────────────────────────────────

/// A batch keeps the plan it was first opened on and goes on until it is marked:
/// opening it marks nothing, marking it changes no plan, and neither touches
/// another batch or any item.
pub proof fn law_batch_runs_until_it_is_marked(
    st: BatchState,
    t: Seq<char>,
    b: Seq<char>,
    digest: Seq<char>,
    again: Seq<char>,
    other: (Seq<char>, Seq<char>),
)
    requires
        !st.batches.contains_key((t, b)),
    ensures
        ({
            let open = opened(st, t, b, digest);
            let over = run_out(open, t, b);
            &&& plan_of(st, t, b) is None
            &&& !has_run_out(st, t, b)
            &&& open_refusal(st, t, b, digest) is None
            &&& plan_of(open, t, b) == Some(digest)
            &&& !has_run_out(open, t, b)
            &&& plan_of(over, t, b) == Some(digest)
            &&& has_run_out(over, t, b)
            &&& opened(over, t, b, digest) == over
            &&& open_refusal(over, t, b, again) is None <==> again == digest
            &&& other != (t, b) ==> plan_of(open, other.0, other.1) == plan_of(
                st,
                other.0,
                other.1,
            ) && has_run_out(open, other.0, other.1) == has_run_out(st, other.0, other.1)
                && plan_of(over, other.0, other.1) == plan_of(st, other.0, other.1)
                && has_run_out(over, other.0, other.1) == has_run_out(st, other.0, other.1)
            &&& open.items == st.items
            &&& over.items == st.items
        }),
{
}

} // verus!
