//! Batches in a shared database: what it answers where its answer is not the one
//! that a single node's tables give.

use vstd::prelude::*;

use crate::batches::{
    batch_rows, item_name, items_of, of_batch, opened, outcome_detail, outcome_of, outcome_to_row,
    outcome_word, reserved, reserved_row, BatchBook, BatchRow, BatchState, ItemKey, ItemModel,
    ItemOutcome, ItemRecord, ItemRow, ItemRowModel, OutcomeModel, Spend,
};
use crate::domain::StoredId;
use crate::error::{Refusal, StoreError};
use crate::quota::{amount_of, read_amount, sql_amount, stored_amount};
use crate::table::{has_key, lemma_chosen, page, text_before, Key, Pick};
use crate::text::{join3, same};
use crate::timers::{bad, corrupt};

verus! {

// ── The batch ───────────────────────────────────────────────────────────────

/// Opens a batch on a plan. A batch that is open keeps the plan it was opened on,
/// whatever plan is offered.
pub fn open_shared(book: &mut BatchBook, tenant: &str, id: &str, plan_digest: &str)
    ensures
        final(book)@ == opened(old(book)@, tenant@, id@, plan_digest@),
{
    let key = (tenant.to_owned(), id.to_owned());
    if !book.batches.contains(&key) {
        book.batches.insert(
            key,
            BatchRow { plan_digest: plan_digest.to_owned(), exhausted: false },
        );
    }
}

/// The tables after a batch was marked as having no more items to come: where it
/// is not here, as they were.
pub open spec fn marked(st: BatchState, t: Seq<char>, b: Seq<char>) -> BatchState {
    if st.batches.contains_key((t, b)) {
        BatchState { batches: st.batches.insert((t, b), (st.batches[(t, b)].0, true)), ..st }
    } else {
        st
    }
}

/// Marks a batch as having no more items to come.
pub fn mark_exhausted_shared(book: &mut BatchBook, tenant: &str, id: &str)
    ensures
        final(book)@ == marked(old(book)@, tenant@, id@),
{
    if let Some(plan_digest) = book.plan_digest(tenant, id) {
        book.batches.insert(
            (tenant.to_owned(), id.to_owned()),
            BatchRow { plan_digest, exhausted: true },
        );
    }
}

// ── Its items ───────────────────────────────────────────────────────────────

/// What the columns of an item say of its outcome. A word that is none of the
/// four says that there is none yet.
pub open spec fn shared_outcome(has: u8, s: Seq<char>, detail: Seq<char>) -> Option<OutcomeModel> {
    if has != 1 {
        None
    } else if s == "succeeded"@ {
        Some(OutcomeModel::Succeeded)
    } else if s == "failed"@ {
        Some(OutcomeModel::Failed(detail))
    } else if s == "quarantined"@ {
        Some(OutcomeModel::Quarantined(detail))
    } else if s == "suspended"@ {
        Some(OutcomeModel::Suspended(detail))
    } else {
        None
    }
}

fn read_outcome(has: u8, s: &str, detail: &str) -> (o: Option<ItemOutcome>)
    ensures
        outcome_of(o) == shared_outcome(has, s@, detail@),
{
    if has != 1 {
        None
    } else if same(s, "succeeded") {
        Some(ItemOutcome::Succeeded)
    } else if same(s, "failed") {
        Some(ItemOutcome::Failed(detail.to_owned()))
    } else if same(s, "quarantined") {
        Some(ItemOutcome::Quarantined(detail.to_owned()))
    } else if same(s, "suspended") {
        Some(ItemOutcome::Suspended(detail.to_owned()))
    } else {
        None
    }
}

/// What an amount comes back as.
pub open spec fn kept_amount(a: u64) -> u64 {
    read_amount(stored_amount(a))
}

/// What a spend comes back as: an amount that no column holds comes back as the
/// most that one does.
pub open spec fn kept_spend(s: Spend) -> Spend {
    Spend { tokens: kept_amount(s.tokens), minor_units: kept_amount(s.minor_units) }
}

pub(crate) fn keep_spend(s: &Spend) -> (k: Spend)
    ensures
        k == kept_spend(*s),
{
    Spend {
        tokens: amount_of(sql_amount(s.tokens)),
        minor_units: amount_of(sql_amount(s.minor_units)),
    }
}

/// How an item row reads: a run id that is none is damage.
pub open spec fn shared_item(key: Seq<char>, row: ItemRowModel) -> Result<ItemModel, Refusal> {
    match row.run.fault {
        Some(fault) => Err(bad("bad run id"@, fault)),
        None => Ok(
            ItemModel {
                key,
                run: row.run.text,
                outcome: shared_outcome(row.has_outcome, row.outcome, row.detail),
                spend: row.spend,
            },
        ),
    }
}

fn read_item(key: &str, row: &ItemRow) -> (r: Result<ItemRecord, StoreError>)
    ensures
        shared_item(key@, row@) == match r {
            Ok(item) => Ok::<ItemModel, Refusal>(item@),
            Err(e) => Err::<ItemModel, Refusal>(e@),
        },
{
    if let Some(fault) = &row.run.fault {
        return Err(corrupt("bad run id", fault));
    }
    Ok(
        ItemRecord {
            key: key.to_owned(),
            run: row.run.text.clone(),
            outcome: read_outcome(row.has_outcome, &row.outcome, &row.detail),
            spend: row.spend,
        },
    )
}

/// Reserves an item for a run, and answers with the item as it stands: one that
/// was reserved before keeps the run it was reserved for.
pub fn reserve_shared(book: &mut BatchBook, tenant: &str, batch: &str, key: &str, run: &str) -> (r:
    Result<ItemRecord, StoreError>)
    ensures
        final(book)@ == reserved(old(book)@, tenant@, batch@, key@, run@),
        shared_item(key@, final(book)@.items[(tenant@, (batch@, key@))]) == match r {
            Ok(item) => Ok::<ItemModel, Refusal>(item@),
            Err(e) => Err::<ItemModel, Refusal>(e@),
        },
{
    let at = (tenant.to_owned(), (batch.to_owned(), key.to_owned()));
    if let Some(row) = book.items.get(&at) {
        return read_item(key, row);
    }
    let row = ItemRow {
        run: StoredId { text: run.to_owned(), fault: None },
        outcome: String::new(),
        has_outcome: 0,
        detail: String::new(),
        spend: Spend { tokens: 0, minor_units: 0 },
    };
    assert(row.outcome@ =~= Seq::<char>::empty());
    assert(row@ == reserved_row(run@));
    let item = read_item(key, &row);
    book.items.insert(at, row);
    item
}

/// The row of an item whose outcome is recorded.
pub open spec fn shared_recorded(row: ItemRowModel, o: OutcomeModel, spend: Spend) -> ItemRowModel {
    ItemRowModel {
        run: row.run,
        outcome: outcome_word(o),
        has_outcome: 1,
        detail: outcome_detail(o),
        spend: kept_spend(spend),
    }
}

/// Records how an item ended. An item that was never reserved is refused. The
/// database has no word for an item that ran out of its allowance.
pub fn record_shared(
    book: &mut BatchBook,
    tenant: &str,
    batch: &str,
    key: &str,
    outcome: &ItemOutcome,
    spend: Spend,
) -> (r: Result<(), StoreError>)
    requires
        !(outcome is Exhausted),
    ensures
        match r {
            Ok(_) => old(book)@.items.contains_key((tenant@, (batch@, key@))) && final(book)@ == (
            BatchState {
                items: old(book)@.items.insert(
                    (tenant@, (batch@, key@)),
                    shared_recorded(old(book)@.items[(tenant@, (batch@, key@))], outcome@, spend),
                ),
                ..old(book)@
            }),
            Err(e) => !old(book)@.items.contains_key((tenant@, (batch@, key@))) && e@
                == Refusal::NotFound(item_name(batch@, key@)) && final(book)@ == old(book)@,
        },
{
    let at = (tenant.to_owned(), (batch.to_owned(), key.to_owned()));
    let run = match book.items.get(&at) {
        None => {
            return Err(StoreError::NotFound(join3(batch, "/", key)));
        },
        Some(row) => row.run.twin(),
    };
    let (word, detail) = outcome_to_row(outcome);
    let row = ItemRow {
        run,
        outcome: word.to_owned(),
        has_outcome: 1,
        detail,
        spend: keep_spend(&spend),
    };
    assert(row@ == shared_recorded(book@.items[at@], outcome@, spend));
    book.items.insert(at, row);
    Ok(())
}

struct InBatch<'a> {
    tenant: &'a str,
    batch: &'a str,
}

impl<'a> Pick<(String, (String, String)), ItemRow> for InBatch<'a> {
    closed spec fn picks(&self, k: ItemKey, r: ItemRowModel) -> bool {
        k.0 == self.tenant@ && k.1.0 == self.batch@
    }

    fn test(&self, k: &(String, (String, String)), r: &ItemRow) -> (b: bool) {
        same(&k.0, self.tenant) && same(&k.1.0, self.batch)
    }
}

/// Whether an item still needs work: it has no outcome, or it waits.
pub open spec fn shared_open(row: ItemRowModel) -> bool {
    row.has_outcome != 1 || row.outcome == "suspended"@
}

/// How many items lead a batch without one among them that needs work.
pub open spec fn shared_frontier(rows: Seq<(ItemKey, ItemRowModel)>, n: nat) -> bool {
    &&& n <= rows.len()
    &&& forall|i: int| 0 <= i < n ==> !shared_open((#[trigger] rows[i]).1)
    &&& n < rows.len() ==> shared_open(rows[n as int].1)
}

/// The last item before the first that still needs work, in item order.
pub fn cursor_shared(book: &BatchBook, tenant: &str, batch: &str) -> (r: Option<String>)
    ensures
        exists|n: nat| #[trigger]
            shared_frontier(batch_rows(book@, tenant@, batch@), n) && match r {
                Some(k) => n > 0 && k@ == batch_rows(book@, tenant@, batch@)[n - 1].0.1.1,
                None => n == 0,
            },
{
    let keys = book.items.select(
        &InBatch { tenant, batch },
        usize::MAX,
        Ghost(of_batch(tenant@, batch@)),
    );
    let ghost rows = batch_rows(book@, tenant@, batch@);
    let mut n: usize = 0;
    let mut last: Option<String> = None;
    while n < keys.len()
        invariant
            rows == batch_rows(book@, tenant@, batch@),
            n <= keys@.len(),
            keys@.len() == rows.len(),
            forall|i: int|
                0 <= i < keys@.len() ==> (#[trigger] keys@[i])@ == rows[i].0
                    && book@.items.contains_key(rows[i].0) && book@.items[rows[i].0] == rows[i].1,
            forall|i: int| 0 <= i < n ==> !shared_open((#[trigger] rows[i]).1),
            match last {
                Some(k) => n > 0 && k@ == rows[n - 1].0.1.1,
                None => n == 0,
            },
        decreases keys@.len() - n,
    {
        assert(keys@[n as int]@ == rows[n as int].0);
        match book.items.get(&keys[n]) {
            Some(row) => {
                if row.has_outcome != 1 || same(&row.outcome, "suspended") {
                    assert(shared_frontier(rows, n as nat));
                    return last;
                }
                last = Some(keys[n].1.1.clone());
            },
            None => {},
        }
        n = n + 1;
    }
    assert(shared_frontier(rows, n as nat));
    last
}

/// How the first rows read, up to the first that does not.
pub open spec fn shared_items_read(rows: Seq<(ItemKey, ItemRowModel)>, n: int) -> Result<
    Seq<ItemModel>,
    Refusal,
>
    decreases n,
{
    if n <= 0 {
        Ok(Seq::empty())
    } else {
        match shared_items_read(rows, n - 1) {
            Err(e) => Err(e),
            Ok(out) => match shared_item(rows[n - 1].0.1.1, rows[n - 1].1) {
                Err(e) => Err(e),
                Ok(item) => Ok(out.push(item)),
            },
        }
    }
}

proof fn lemma_shared_items_refused(rows: Seq<(ItemKey, ItemRowModel)>, n: int, m: int)
    requires
        n <= m,
        shared_items_read(rows, n) is Err,
    ensures
        shared_items_read(rows, m) == shared_items_read(rows, n),
    decreases m - n,
{
    if n < m {
        lemma_shared_items_refused(rows, n, m - 1);
    }
}

/// A batch's items in item order, no more than `limit` of them.
pub fn items_shared(book: &BatchBook, tenant: &str, batch: &str, limit: usize) -> (r: Result<
    Vec<ItemRecord>,
    StoreError,
>)
    ensures
        shared_items_read(
            batch_rows(book@, tenant@, batch@),
            page(batch_rows(book@, tenant@, batch@).len(), limit),
        ) == match r {
            Ok(out) => Ok::<Seq<ItemModel>, Refusal>(items_of(out@)),
            Err(e) => Err::<Seq<ItemModel>, Refusal>(e@),
        },
{
    let keys = book.items.select(
        &InBatch { tenant, batch },
        limit,
        Ghost(of_batch(tenant@, batch@)),
    );
    let ghost rows = batch_rows(book@, tenant@, batch@);
    let mut out: Vec<ItemRecord> = Vec::new();
    let mut n: usize = 0;
    assert(items_of(out@) =~= Seq::<ItemModel>::empty());
    while n < keys.len()
        invariant
            rows == batch_rows(book@, tenant@, batch@),
            n <= keys@.len(),
            keys@.len() == page(rows.len(), limit),
            forall|i: int|
                0 <= i < keys@.len() ==> (#[trigger] keys@[i])@ == rows[i].0
                    && book@.items.contains_key(rows[i].0) && book@.items[rows[i].0] == rows[i].1,
            shared_items_read(rows, n as int) == Ok::<Seq<ItemModel>, Refusal>(items_of(out@)),
        decreases keys@.len() - n,
    {
        assert(keys@[n as int]@ == rows[n as int].0);
        match book.items.get(&keys[n]) {
            Some(row) => {
                match read_item(&keys[n].1.1, row) {
                    Err(e) => {
                        proof {
                            lemma_shared_items_refused(rows, n + 1, keys@.len() as int);
                        }
                        return Err(e);
                    },
                    Ok(item) => {
                        let ghost so_far = items_of(out@);
                        let ghost last = item@;
                        out.push(item);
                        assert(items_of(out@) =~= so_far.push(last));
                    },
                }
            },
            None => {},
        }
        n = n + 1;
    }
    Ok(out)
}

// ── Laws ────────────────────────────────────────────────────────────────────

/// Every outcome that the database has a word for reads back as the value that
/// wrote it.
pub proof fn law_shared_outcome_round_trip(o: OutcomeModel)
    requires
        !(o is Exhausted),
    ensures
        shared_outcome(1, outcome_word(o), outcome_detail(o)) == Some(o),
{
    reveal_strlit("succeeded");
    reveal_strlit("failed");
    reveal_strlit("quarantined");
    reveal_strlit("suspended");
    assert("succeeded"@.len() == 9 && "suspended"@.len() == 9);
    assert("failed"@.len() == 6 && "quarantined"@.len() == 11);
    assert("succeeded"@[2] != "suspended"@[2]);
}

/// A batch runs one plan: once it is open, the plan it was opened on stands,
/// whatever plan it is opened on again.
pub proof fn law_shared_plan_stands(
    st: BatchState,
    t: Seq<char>,
    b: Seq<char>,
    first: Seq<char>,
    later: Seq<char>,
)
    requires
        !st.batches.contains_key((t, b)),
    ensures
        opened(st, t, b, first).batches[(t, b)].0 == first,
        opened(opened(st, t, b, first), t, b, later) == opened(st, t, b, first),
        marked(opened(st, t, b, first), t, b).batches[(t, b)] == (first, true),
{
}

/// A spend that the columns hold comes back as it was.
pub proof fn law_kept_spend_is_exact(s: Spend)
    requires
        s.tokens <= i64::MAX,
        s.minor_units <= i64::MAX,
    ensures
        kept_spend(s) == s,
{
}

/// What is reserved and recorded reads back: the run of the first reservation, and no
/// outcome before one is recorded; the outcome that was recorded, and a spend that
/// the columns hold as it was. No other item is touched.
pub proof fn law_shared_items_read_back(
    st: BatchState,
    t: Seq<char>,
    b: Seq<char>,
    item: Seq<char>,
    run: Seq<char>,
    o: OutcomeModel,
    spend: Spend,
    k: ItemKey,
)
    requires
        !st.items.contains_key((t, (b, item))),
        !(o is Exhausted),
        spend.tokens <= i64::MAX,
        spend.minor_units <= i64::MAX,
    ensures
        ({
            let first = reserved(st, t, b, item, run);
            let row = first.items[(t, (b, item))];
            &&& shared_item(item, row) == Ok::<ItemModel, Refusal>(
                ItemModel {
                    key: item,
                    run,
                    outcome: None,
                    spend: Spend { tokens: 0, minor_units: 0 },
                },
            )
            &&& shared_item(item, shared_recorded(row, o, spend)) == Ok::<ItemModel, Refusal>(
                ItemModel { key: item, run, outcome: Some(o), spend },
            )
            &&& k != (t, (b, item)) ==> first.items.contains_key(k) == st.items.contains_key(k)
            &&& st.items.contains_key(k) ==> first.items[k] == st.items[k]
            &&& reserved(first, t, b, item, b).items[(t, (b, item))] == row
        }),
{
    law_shared_outcome_round_trip(o);
}

/// Before the cursor there is only work that is done: it succeeded, failed or was put
/// aside. What comes next has no outcome or waits.
pub proof fn law_shared_cursor_stands_before_open_work(
    rows: Seq<(ItemKey, ItemRowModel)>,
    n: nat,
    i: int,
    o: Option<OutcomeModel>,
)
    requires
        shared_frontier(rows, n),
        0 <= i < rows.len(),
        shared_outcome(rows[i].1.has_outcome, rows[i].1.outcome, rows[i].1.detail) == o,
        o is None ==> rows[i].1.has_outcome != 1,
    ensures
        i < n ==> o is Some && !(o->0 is Suspended),
        i == n ==> o is None || o->0 is Suspended,
{
    reveal_strlit("succeeded");
    reveal_strlit("failed");
    reveal_strlit("quarantined");
    reveal_strlit("suspended");
    assert("succeeded"@.len() == 9 && "suspended"@.len() == 9);
    assert("failed"@.len() == 6 && "quarantined"@.len() == 11);
    assert("succeeded"@[2] != "suspended"@[2]);
}

proof fn lemma_each_shared_item(rows: Seq<(ItemKey, ItemRowModel)>, n: int)
    requires
        0 <= n <= rows.len(),
        shared_items_read(rows, n) is Ok,
    ensures
        shared_items_read(rows, n)->Ok_0.len() == n,
        forall|i: int|
            0 <= i < n ==> shared_item((#[trigger] rows[i]).0.1.1, rows[i].1) == Ok::<
                ItemModel,
                Refusal,
            >(shared_items_read(rows, n)->Ok_0[i]),
    decreases n,
{
    if n > 0 {
        lemma_each_shared_item(rows, n - 1);
        let before = shared_items_read(rows, n - 1)->Ok_0;
        let after = shared_items_read(rows, n)->Ok_0;
        assert forall|i: int| 0 <= i < n implies shared_item(
            (#[trigger] rows[i]).0.1.1,
            rows[i].1,
        ) == Ok::<ItemModel, Refusal>(after[i]) by {
            if i < n - 1 {
                assert(after[i] == before[i]);
            }
        }
    }
}

/// The items of a batch are its own, in item order; what is left out for want of room
/// comes behind them.
pub proof fn law_shared_items_are_all_given(
    st: BatchState,
    t: Seq<char>,
    b: Seq<char>,
    limit: usize,
    out: Seq<ItemModel>,
    item: Seq<char>,
    i: int,
    j: int,
)
    requires
        st.items.dom().finite(),
        shared_items_read(batch_rows(st, t, b), page(batch_rows(st, t, b).len(), limit)) == Ok::<
            Seq<ItemModel>,
            Refusal,
        >(out),
    ensures
        out.len() <= limit,
        0 <= i < out.len() ==> {
            let row = st.items[(t, (b, out[i].key))];
            &&& st.items.contains_key((t, (b, out[i].key)))
            &&& out[i].run == row.run.text
            &&& out[i].spend == row.spend
            &&& out[i].outcome == shared_outcome(row.has_outcome, row.outcome, row.detail)
        },
        0 <= i < j < out.len() ==> text_before(out[i].key, out[j].key),
        st.items.contains_key((t, (b, item))) && (forall|p: int|
            0 <= p < out.len() ==> (#[trigger] out[p]).key != item) ==> out.len() == limit && (0 <= i
            < limit ==> text_before(out[i].key, item)),
{
    let rows = batch_rows(st, t, b);
    let f = of_batch(t, b);
    let n = page(rows.len(), limit);
    lemma_chosen::<(String, (String, String)), ItemRowModel>(st.items, f);
    lemma_each_shared_item(rows, n);
    <String as Key>::lemma_irreflexive(t);
    <String as Key>::lemma_irreflexive(b);
    if 0 <= i < out.len() {
        assert(f(rows[i]) && st.items.contains_key(rows[i].0));
        assert(rows[i].0 == (t, (b, out[i].key)));
    }
    if 0 <= i < j < out.len() {
        assert(f(rows[j]));
        assert(<(String, (String, String)) as Key>::precedes(rows[i].0, rows[j].0));
    }
    let k = (t, (b, item));
    if st.items.contains_key(k) {
        assert(f((k, st.items[k])));
        assert(has_key(rows, k));
        let p = choose|p: int| 0 <= p < rows.len() && (#[trigger] rows[p]).0 == k;
        if p < n {
            assert(out[p].key == item);
        } else if 0 <= i < out.len() {
            assert(<(String, (String, String)) as Key>::precedes(rows[i].0, rows[p].0));
        }
    }
}

} // verus!
