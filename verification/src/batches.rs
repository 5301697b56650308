//! Batch state: one frozen plan per batch, one row per item from the moment it
//! is reserved.

use vstd::prelude::*;

use crate::domain::{IdModel, StoredId};
use crate::error::{Refusal, StoreError};
use crate::table::{chosen, has_key, page, Key, Pick, Table};
use crate::text::{join3, join4, same};

verus! {

/// How an item ended, or what it is waiting for.
#[derive(Debug, PartialEq, Eq)]
pub enum ItemOutcome {
    Succeeded,
    Failed(String),
    Quarantined(String),
    Suspended(String),
    Exhausted(String),
}

/// What an [`ItemOutcome`] says.
pub enum OutcomeModel {
    Succeeded,
    Failed(Seq<char>),
    Quarantined(Seq<char>),
    Suspended(Seq<char>),
    Exhausted(Seq<char>),
}

impl View for ItemOutcome {
    type V = OutcomeModel;

    open spec fn view(&self) -> OutcomeModel {
        match self {
            ItemOutcome::Succeeded => OutcomeModel::Succeeded,
            ItemOutcome::Failed(d) => OutcomeModel::Failed(d@),
            ItemOutcome::Quarantined(d) => OutcomeModel::Quarantined(d@),
            ItemOutcome::Suspended(d) => OutcomeModel::Suspended(d@),
            ItemOutcome::Exhausted(d) => OutcomeModel::Exhausted(d@),
        }
    }
}

/// The word an outcome is stored as.
pub open spec fn outcome_word(o: OutcomeModel) -> Seq<char> {
    match o {
        OutcomeModel::Succeeded => "succeeded"@,
        OutcomeModel::Failed(_) => "failed"@,
        OutcomeModel::Quarantined(_) => "quarantined"@,
        OutcomeModel::Suspended(_) => "suspended"@,
        OutcomeModel::Exhausted(_) => "exhausted"@,
    }
}

/// The detail stored beside the word.
pub open spec fn outcome_detail(o: OutcomeModel) -> Seq<char> {
    match o {
        OutcomeModel::Succeeded => Seq::empty(),
        OutcomeModel::Failed(d) => d,
        OutcomeModel::Quarantined(d) => d,
        OutcomeModel::Suspended(d) => d,
        OutcomeModel::Exhausted(d) => d,
    }
}

/// Writes an outcome as the word and the detail that are stored of it.
pub fn outcome_to_row(o: &ItemOutcome) -> (r: (&'static str, String))
    ensures
        r.0@ == outcome_word(o@),
        r.1@ == outcome_detail(o@),
{
    match o {
        ItemOutcome::Succeeded => {
            let blank = String::new();
            assert(blank@ =~= Seq::<char>::empty());
            ("succeeded", blank)
        },
        ItemOutcome::Failed(d) => ("failed", d.clone()),
        ItemOutcome::Quarantined(d) => ("quarantined", d.clone()),
        ItemOutcome::Suspended(d) => ("suspended", d.clone()),
        ItemOutcome::Exhausted(d) => ("exhausted", d.clone()),
    }
}

pub open spec fn bad_outcome_text(s: Seq<char>) -> Seq<char> {
    "unknown item outcome '"@ + s + "'"@
}

/// What the columns of an item say of its outcome. No outcome yet is one thing,
/// and a word that no outcome is stored as is another: that is damage.
pub open spec fn outcome_read(has: u8, s: Seq<char>, detail: Seq<char>) -> Result<
    Option<OutcomeModel>,
    Refusal,
> {
    if has != 1 {
        Ok(None)
    } else if s == "succeeded"@ {
        Ok(Some(OutcomeModel::Succeeded))
    } else if s == "failed"@ {
        Ok(Some(OutcomeModel::Failed(detail)))
    } else if s == "quarantined"@ {
        Ok(Some(OutcomeModel::Quarantined(detail)))
    } else if s == "suspended"@ {
        Ok(Some(OutcomeModel::Suspended(detail)))
    } else if s == "exhausted"@ {
        Ok(Some(OutcomeModel::Exhausted(detail)))
    } else {
        Err(Refusal::Corrupt { seq: 0, detail: bad_outcome_text(s) })
    }
}

/// What an optional outcome says.
pub open spec fn outcome_of(o: Option<ItemOutcome>) -> Option<OutcomeModel> {
    match o {
        Some(o) => Some(o@),
        None => None,
    }
}

/// Reads an outcome back.
pub fn outcome_from_row(has: u8, s: &str, detail: &str) -> (r: Result<
    Option<ItemOutcome>,
    StoreError,
>)
    ensures
        match r {
            Ok(o) => outcome_read(has, s@, detail@) == Ok::<Option<OutcomeModel>, Refusal>(
                outcome_of(o),
            ),
            Err(e) => outcome_read(has, s@, detail@) == Err::<Option<OutcomeModel>, Refusal>(e@),
        },
{
    if has != 1 {
        return Ok(None);
    }
    if same(s, "succeeded") {
        Ok(Some(ItemOutcome::Succeeded))
    } else if same(s, "failed") {
        Ok(Some(ItemOutcome::Failed(detail.to_owned())))
    } else if same(s, "quarantined") {
        Ok(Some(ItemOutcome::Quarantined(detail.to_owned())))
    } else if same(s, "suspended") {
        Ok(Some(ItemOutcome::Suspended(detail.to_owned())))
    } else if same(s, "exhausted") {
        Ok(Some(ItemOutcome::Exhausted(detail.to_owned())))
    } else {
        Err(StoreError::Corrupt { seq: 0, detail: join3("unknown item outcome '", s, "'") })
    }
}

proof fn reveal_outcome_words()
    ensures
        "succeeded"@.len() == 9,
        "succeeded"@[2] == 'c',
        "failed"@.len() == 6,
        "quarantined"@.len() == 11,
        "suspended"@.len() == 9,
        "suspended"@[2] == 's',
        "suspended"@[0] == 's',
        "exhausted"@.len() == 9,
        "exhausted"@[0] == 'e',
        "exhausted"@[2] == 'h',
{
    reveal_strlit("succeeded");
    reveal_strlit("failed");
    reveal_strlit("quarantined");
    reveal_strlit("suspended");
    reveal_strlit("exhausted");
}

/// Every outcome that is written reads back as the value that wrote it.
pub proof fn law_outcome_round_trip(o: OutcomeModel)
    ensures
        outcome_read(1, outcome_word(o), outcome_detail(o)) == Ok::<Option<OutcomeModel>, Refusal>(
            Some(o),
        ),
{
    reveal_outcome_words();
}

/// A word that no outcome is written as is refused, never read as absence.
pub proof fn law_unknown_outcome_is_damage(s: Seq<char>, detail: Seq<char>)
    requires
        forall|o: OutcomeModel| #[trigger] outcome_word(o) != s,
    ensures
        outcome_read(1, s, detail) is Err,
{
    assert(outcome_word(OutcomeModel::Succeeded) != s);
    assert(outcome_word(OutcomeModel::Failed(s)) != s);
    assert(outcome_word(OutcomeModel::Quarantined(s)) != s);
    assert(outcome_word(OutcomeModel::Suspended(s)) != s);
    assert(outcome_word(OutcomeModel::Exhausted(s)) != s);
}

/// Whether an item still needs work. One that waits does.
pub open spec fn open_item(has_outcome: u8, outcome: Seq<char>) -> bool {
    has_outcome != 1 || outcome == "suspended"@ || outcome == "exhausted"@
}

/// Whether an item still needs work.
pub fn is_open(has_outcome: u8, outcome: &str) -> (b: bool)
    ensures
        b == open_item(has_outcome, outcome@),
{
    has_outcome != 1 || same(outcome, "suspended") || same(outcome, "exhausted")
}

/// What was spent.
#[derive(Clone, Copy, Debug, PartialEq, Eq)]
pub struct Spend {
    pub tokens: u64,
    pub minor_units: u64,
}

/// A batch as it is stored.
#[derive(Debug)]
pub struct BatchRow {
    pub plan_digest: String,
    pub exhausted: bool,
}

impl View for BatchRow {
    type V = (Seq<char>, bool);

    open spec fn view(&self) -> (Seq<char>, bool) {
        (self.plan_digest@, self.exhausted)
    }
}

/// An item as it is stored.
#[derive(Debug)]
pub struct ItemRow {
    pub run: StoredId,
    pub outcome: String,
    pub has_outcome: u8,
    pub detail: String,
    pub spend: Spend,
}

/// What an [`ItemRow`] says.
pub struct ItemRowModel {
    pub run: IdModel,
    pub outcome: Seq<char>,
    pub has_outcome: u8,
    pub detail: Seq<char>,
    pub spend: Spend,
}

impl View for ItemRow {
    type V = ItemRowModel;

    open spec fn view(&self) -> ItemRowModel {
        ItemRowModel {
            run: self.run@,
            outcome: self.outcome@,
            has_outcome: self.has_outcome,
            detail: self.detail@,
            spend: self.spend,
        }
    }
}

/// An item as it is read.
#[derive(Debug)]
pub struct ItemRecord {
    pub key: String,
    pub run: String,
    pub outcome: Option<ItemOutcome>,
    pub spend: Spend,
}

/// What an [`ItemRecord`] says.
pub struct ItemModel {
    pub key: Seq<char>,
    pub run: Seq<char>,
    pub outcome: Option<OutcomeModel>,
    pub spend: Spend,
}

impl View for ItemRecord {
    type V = ItemModel;

    open spec fn view(&self) -> ItemModel {
        ItemModel {
            key: self.key@,
            run: self.run@,
            outcome: outcome_of(self.outcome),
            spend: self.spend,
        }
    }
}

/// What a list of items says.
pub open spec fn items_of(v: Seq<ItemRecord>) -> Seq<ItemModel> {
    Seq::new(v.len(), |i: int| v[i]@)
}

pub open spec fn bad_run_text(id: Seq<char>, fault: Seq<char>) -> Seq<char> {
    "bad run id '"@ + id + "': "@ + fault
}

/// How an item row reads: a run id that is none is damage, and so is a word that
/// no outcome is stored as.
pub open spec fn item_read(key: Seq<char>, row: ItemRowModel) -> Result<ItemModel, Refusal> {
    match row.run.fault {
        Some(fault) => Err(Refusal::Corrupt { seq: 0, detail: bad_run_text(row.run.text, fault) }),
        None => match outcome_read(row.has_outcome, row.outcome, row.detail) {
            Err(e) => Err(e),
            Ok(outcome) => Ok(
                ItemModel { key, run: row.run.text, outcome, spend: row.spend },
            ),
        },
    }
}

/// A row's run, refused where it is no run id.
fn run_from(id: &StoredId) -> (r: Result<String, StoreError>)
    ensures
        match r {
            Ok(run) => id@.fault is None && run@ == id@.text,
            Err(e) => id@.fault matches Some(fault) && e@ == (Refusal::Corrupt {
                seq: 0,
                detail: bad_run_text(id@.text, fault),
            }),
        },
{
    match &id.fault {
        Some(fault) => Err(
            StoreError::Corrupt {
                seq: 0,
                detail: join4("bad run id '", &id.text, "': ", fault),
            },
        ),
        None => Ok(id.text.clone()),
    }
}

/// Reads an item row.
fn item_from(key: &str, row: &ItemRow) -> (r: Result<ItemRecord, StoreError>)
    ensures
        match r {
            Ok(item) => item_read(key@, row@) == Ok::<ItemModel, Refusal>(item@),
            Err(e) => item_read(key@, row@) == Err::<ItemModel, Refusal>(e@),
        },
{
    match run_from(&row.run) {
        Err(e) => Err(e),
        Ok(run) => match outcome_from_row(row.has_outcome, &row.outcome, &row.detail) {
            Err(e) => Err(e),
            Ok(outcome) => Ok(ItemRecord { key: key.to_owned(), run, outcome, spend: row.spend }),
        },
    }
}

// ── The book ────────────────────────────────────────────────────────────────

/// A tenant's batch.
pub type BatchKey = (Seq<char>, Seq<char>);

/// An item of a tenant's batch.
pub type ItemKey = (Seq<char>, (Seq<char>, Seq<char>));

/// What the batch tables hold.
#[verifier::ext_equal]
pub struct BatchState {
    pub batches: Map<BatchKey, (Seq<char>, bool)>,
    pub items: Map<ItemKey, ItemRowModel>,
}

/// The batches of a plane.
pub struct BatchBook {
    pub batches: Table<(String, String), BatchRow>,
    pub items: Table<(String, (String, String)), ItemRow>,
}

impl View for BatchBook {
    type V = BatchState;

    open spec fn view(&self) -> BatchState {
        BatchState { batches: self.batches@, items: self.items@ }
    }
}

/// Tables with no batches.
pub open spec fn no_batches() -> BatchState {
    BatchState { batches: Map::empty(), items: Map::empty() }
}

pub open spec fn item_name(batch: Seq<char>, item: Seq<char>) -> Seq<char> {
    batch + "/"@ + item
}

/// The items of a batch.
pub open spec fn of_batch(t: Seq<char>, b: Seq<char>) -> spec_fn((ItemKey, ItemRowModel)) -> bool {
    |e: (ItemKey, ItemRowModel)| e.0.0 == t && e.0.1.0 == b
}

/// The rows of a batch's items, by item key.
pub open spec fn batch_rows(st: BatchState, t: Seq<char>, b: Seq<char>) -> Seq<
    (ItemKey, ItemRowModel),
> {
    chosen::<(String, (String, String)), ItemRowModel>(st.items, of_batch(t, b))
}

struct OfBatch<'a> {
    tenant: &'a str,
    batch: &'a str,
}

impl<'a> Pick<(String, (String, String)), ItemRow> for OfBatch<'a> {
    closed spec fn picks(&self, k: ItemKey, r: ItemRowModel) -> bool {
        k.0 == self.tenant@ && k.1.0 == self.batch@
    }

    fn test(&self, k: &(String, (String, String)), r: &ItemRow) -> (b: bool) {
        same(&k.0, self.tenant) && same(&k.1.0, self.batch)
    }
}

/// What opening a batch on a plan answers.
pub open spec fn open_refusal(
    st: BatchState,
    t: Seq<char>,
    b: Seq<char>,
    digest: Seq<char>,
) -> Option<Refusal> {
    if st.batches.contains_key((t, b)) && st.batches[(t, b)].0 != digest {
        Some(
            Refusal::BatchPlanChanged {
                batch: b,
                stored: st.batches[(t, b)].0,
                offered: digest,
            },
        )
    } else {
        None
    }
}

/// The tables after a batch was opened on a plan.
pub open spec fn opened(st: BatchState, t: Seq<char>, b: Seq<char>, digest: Seq<char>) -> BatchState {
    if st.batches.contains_key((t, b)) {
        st
    } else {
        BatchState { batches: st.batches.insert((t, b), (digest, false)), ..st }
    }
}

/// The row of an item that is reserved for a run and has no outcome.
pub open spec fn reserved_row(run: Seq<char>) -> ItemRowModel {
    ItemRowModel {
        run: crate::domain::good_id(run),
        outcome: Seq::empty(),
        has_outcome: 0,
        detail: Seq::empty(),
        spend: Spend { tokens: 0, minor_units: 0 },
    }
}

/// The tables after an item was reserved for a run: an item that has a row
/// keeps it.
pub open spec fn reserved(
    st: BatchState,
    t: Seq<char>,
    b: Seq<char>,
    item: Seq<char>,
    run: Seq<char>,
) -> BatchState {
    if st.items.contains_key((t, (b, item))) {
        st
    } else {
        BatchState { items: st.items.insert((t, (b, item)), reserved_row(run)), ..st }
    }
}

/// The row of an item whose outcome is recorded.
pub open spec fn recorded_row(row: ItemRowModel, o: OutcomeModel, spend: Spend) -> ItemRowModel {
    ItemRowModel {
        run: row.run,
        outcome: outcome_word(o),
        has_outcome: 1,
        detail: outcome_detail(o),
        spend,
    }
}

/// The tables after the outcome of an item was recorded.
pub open spec fn recorded(
    st: BatchState,
    t: Seq<char>,
    b: Seq<char>,
    item: Seq<char>,
    o: OutcomeModel,
    spend: Spend,
) -> BatchState {
    BatchState {
        items: st.items.insert(
            (t, (b, item)),
            recorded_row(st.items[(t, (b, item))], o, spend),
        ),
        ..st
    }
}

/// The plan that a batch was opened on.
pub open spec fn plan_of(st: BatchState, t: Seq<char>, b: Seq<char>) -> Option<Seq<char>> {
    if st.batches.contains_key((t, b)) {
        Some(st.batches[(t, b)].0)
    } else {
        None
    }
}

/// Whether a batch has no more items to come.
pub open spec fn has_run_out(st: BatchState, t: Seq<char>, b: Seq<char>) -> bool {
    st.batches.contains_key((t, b)) && st.batches[(t, b)].1
}

/// The tables after a batch that is here was marked as having no more items to
/// come.
pub open spec fn run_out(st: BatchState, t: Seq<char>, b: Seq<char>) -> BatchState {
    BatchState { batches: st.batches.insert((t, b), (st.batches[(t, b)].0, true)), ..st }
}

/// How many items lead a batch without one among them that needs work.
pub open spec fn is_frontier(rows: Seq<(ItemKey, ItemRowModel)>, n: nat) -> bool {
    &&& n <= rows.len()
    &&& forall|i: int|
        0 <= i < n ==> !open_item((#[trigger] rows[i]).1.has_outcome, rows[i].1.outcome)
    &&& n < rows.len() ==> open_item(rows[n as int].1.has_outcome, rows[n as int].1.outcome)
}

/// What the items of a batch come to.
#[derive(Debug)]
pub struct BatchCensus {
    pub succeeded: u64,
    pub failed: u64,
    pub quarantined: u64,
    pub suspended: u64,
    pub exhausted: u64,
    pub in_flight: u64,
    pub spend: Spend,
}

/// How many of the rows have an outcome stored as this word.
pub open spec fn with_outcome(rows: Seq<(ItemKey, ItemRowModel)>, word: Seq<char>) -> nat
    decreases rows.len(),
{
    if rows.len() == 0 {
        0
    } else {
        with_outcome(rows.drop_last(), word) + if rows.last().1.has_outcome == 1
            && rows.last().1.outcome == word {
            1nat
        } else {
            0nat
        }
    }
}

/// How many of the rows have no outcome.
pub open spec fn without_outcome(rows: Seq<(ItemKey, ItemRowModel)>) -> nat
    decreases rows.len(),
{
    if rows.len() == 0 {
        0
    } else {
        without_outcome(rows.drop_last()) + if rows.last().1.has_outcome != 1 {
            1nat
        } else {
            0nat
        }
    }
}

/// The tokens that the rows spent.
pub open spec fn tokens_spent(rows: Seq<(ItemKey, ItemRowModel)>) -> nat
    decreases rows.len(),
{
    if rows.len() == 0 {
        0
    } else {
        tokens_spent(rows.drop_last()) + rows.last().1.spend.tokens as nat
    }
}

/// The money that the rows spent, in minor units.
pub open spec fn money_spent(rows: Seq<(ItemKey, ItemRowModel)>) -> nat
    decreases rows.len(),
{
    if rows.len() == 0 {
        0
    } else {
        money_spent(rows.drop_last()) + rows.last().1.spend.minor_units as nat
    }
}

/// Whether a row has no outcome, or one that can be read.
pub open spec fn readable(row: ItemRowModel) -> bool {
    outcome_read(row.has_outcome, row.outcome, row.detail) is Ok
}

/// Whether a census of the first rows can be given.
pub open spec fn countable(rows: Seq<(ItemKey, ItemRowModel)>) -> bool {
    &&& forall|i: int| 0 <= i < rows.len() ==> readable((#[trigger] rows[i]).1)
    &&& tokens_spent(rows) <= u64::MAX
    &&& money_spent(rows) <= u64::MAX
}

/// The census of rows that can be counted.
pub open spec fn counted(rows: Seq<(ItemKey, ItemRowModel)>, c: BatchCensus) -> bool {
    &&& c.succeeded == with_outcome(rows, "succeeded"@)
    &&& c.failed == with_outcome(rows, "failed"@)
    &&& c.quarantined == with_outcome(rows, "quarantined"@)
    &&& c.suspended == with_outcome(rows, "suspended"@)
    &&& c.exhausted == with_outcome(rows, "exhausted"@)
    &&& c.in_flight == without_outcome(rows)
    &&& c.spend.tokens == tokens_spent(rows)
    &&& c.spend.minor_units == money_spent(rows)
}

pub open spec fn spend_overflow() -> Refusal {
    Refusal::Backend("batch spend overflow"@)
}

/// What the first row that cannot be counted is refused with: an outcome that
/// cannot be read, or a spend that no longer fits.
pub open spec fn census_refusal(rows: Seq<(ItemKey, ItemRowModel)>, n: int) -> Refusal {
    if !readable(rows[n].1) {
        Refusal::Corrupt { seq: 0, detail: bad_outcome_text(rows[n].1.outcome) }
    } else {
        spend_overflow()
    }
}

/// Whether the row at `n` is the first with which the rows cannot be counted.
pub open spec fn stops_at(rows: Seq<(ItemKey, ItemRowModel)>, n: int) -> bool {
    &&& 0 <= n < rows.len()
    &&& countable(rows.take(n))
    &&& !countable(rows.take(n + 1))
}

proof fn lemma_counts(rows: Seq<(ItemKey, ItemRowModel)>)
    requires
        forall|i: int| 0 <= i < rows.len() ==> readable((#[trigger] rows[i]).1),
    ensures
        with_outcome(rows, "succeeded"@) + with_outcome(rows, "failed"@) + with_outcome(
            rows,
            "quarantined"@,
        ) + with_outcome(rows, "suspended"@) + with_outcome(rows, "exhausted"@) + without_outcome(
            rows,
        ) == rows.len(),
    decreases rows.len(),
{
    reveal_outcome_words();
    if rows.len() > 0 {
        let d = rows.drop_last();
        assert forall|i: int| 0 <= i < d.len() implies readable((#[trigger] d[i]).1) by {
            assert(d[i] == rows[i]);
        }
        lemma_counts(d);
        assert(readable(rows[rows.len() - 1].1));
    }
}

/// A census that is given counts every item of the batch, each once.
pub proof fn law_census_counts_every_item(rows: Seq<(ItemKey, ItemRowModel)>, c: BatchCensus)
    requires
        countable(rows),
        counted(rows, c),
    ensures
        c.succeeded + c.failed + c.quarantined + c.suspended + c.exhausted + c.in_flight
            == rows.len(),
{
    lemma_counts(rows);
}

/// How the first rows read, up to the first that does not.
pub open spec fn items_read(rows: Seq<(ItemKey, ItemRowModel)>, n: int) -> Result<
    Seq<ItemModel>,
    Refusal,
>
    decreases n,
{
    if n <= 0 {
        Ok(Seq::empty())
    } else {
        match items_read(rows, n - 1) {
            Err(e) => Err(e),
            Ok(out) => match item_read(rows[n - 1].0.1.1, rows[n - 1].1) {
                Err(e) => Err(e),
                Ok(item) => Ok(out.push(item)),
            },
        }
    }
}

/// A refusal at some row is the refusal of every longer page.
proof fn lemma_read_refused(rows: Seq<(ItemKey, ItemRowModel)>, n: int, m: int)
    requires
        n <= m,
        items_read(rows, n) is Err,
    ensures
        items_read(rows, m) == items_read(rows, n),
    decreases m - n,
{
    if n < m {
        lemma_read_refused(rows, n, m - 1);
    }
}

impl BatchBook {
    /// Tables with no batches.
    pub fn new() -> (b: BatchBook)
        ensures
            b@ == no_batches(),
    {
        BatchBook { batches: Table::new(), items: Table::new() }
    }

    /// Opens a batch on a plan. One batch runs one frozen plan: opening it again
    /// on the same plan changes nothing, and on another is refused.
    pub fn open(&mut self, tenant: &str, id: &str, plan_digest: &str) -> (r: Result<(), StoreError>)
        ensures
            match r {
                Ok(_) => open_refusal(old(self)@, tenant@, id@, plan_digest@) is None
                    && final(self)@ == opened(old(self)@, tenant@, id@, plan_digest@),
                Err(e) => open_refusal(old(self)@, tenant@, id@, plan_digest@) == Some(e@)
                    && final(self)@ == old(self)@,
            },
    {
        let key = (tenant.to_owned(), id.to_owned());
        match self.batches.get(&key) {
            None => {
                self.batches.insert(
                    key,
                    BatchRow { plan_digest: plan_digest.to_owned(), exhausted: false },
                );
                Ok(())
            },
            Some(row) => {
                if same(&row.plan_digest, plan_digest) {
                    Ok(())
                } else {
                    Err(
                        StoreError::BatchPlanChanged {
                            batch: id.to_owned(),
                            stored: row.plan_digest.clone(),
                            offered: plan_digest.to_owned(),
                        },
                    )
                }
            },
        }
    }

    /// The plan a batch was opened on.
    pub fn plan_digest(&self, tenant: &str, id: &str) -> (r: Option<String>)
        ensures
            plan_of(self@, tenant@, id@) == match r {
                Some(d) => Some(d@),
                None => None,
            },
    {
        match self.batches.get(&(tenant.to_owned(), id.to_owned())) {
            Some(row) => Some(row.plan_digest.clone()),
            None => None,
        }
    }

    /// Marks a batch as having no more items to come.
    pub fn mark_exhausted(&mut self, tenant: &str, id: &str) -> (r: Result<(), StoreError>)
        ensures
            match r {
                Ok(_) => old(self)@.batches.contains_key((tenant@, id@)) && final(self)@
                    == run_out(old(self)@, tenant@, id@),
                Err(e) => !old(self)@.batches.contains_key((tenant@, id@)) && e@
                    == Refusal::NotFound(id@) && final(self)@ == old(self)@,
            },
    {
        let key = (tenant.to_owned(), id.to_owned());
        match self.plan_digest(tenant, id) {
            None => Err(StoreError::NotFound(id.to_owned())),
            Some(plan_digest) => {
                self.batches.insert(key, BatchRow { plan_digest, exhausted: true });
                Ok(())
            },
        }
    }

    /// Whether a batch has no more items to come.
    pub fn is_exhausted(&self, tenant: &str, id: &str) -> (b: bool)
        ensures
            b == has_run_out(self@, tenant@, id@),
    {
        match self.batches.get(&(tenant.to_owned(), id.to_owned())) {
            Some(row) => row.exhausted,
            None => false,
        }
    }

    /// Reserves an item for a run, and answers with the item as it stands: one
    /// that was reserved before keeps the run it was reserved for.
    pub fn reserve(&mut self, tenant: &str, batch: &str, key: &str, run: &str) -> (r: Result<
        ItemRecord,
        StoreError,
    >)
        ensures
            final(self)@ == reserved(old(self)@, tenant@, batch@, key@, run@),
            match r {
                Ok(item) => item_read(key@, final(self)@.items[(tenant@, (batch@, key@))]) == Ok::<
                    ItemModel,
                    Refusal,
                >(item@),
                Err(e) => item_read(key@, final(self)@.items[(tenant@, (batch@, key@))]) == Err::<
                    ItemModel,
                    Refusal,
                >(e@),
            },
    {
        let at = (tenant.to_owned(), (batch.to_owned(), key.to_owned()));
        if let Some(row) = self.items.get(&at) {
            return item_from(key, row);
        }
        let row = ItemRow {
            run: StoredId { text: run.to_owned(), fault: None },
            outcome: String::new(),
            has_outcome: 0,
            detail: String::new(),
            spend: Spend { tokens: 0, minor_units: 0 },
        };
        assert(row.outcome@ =~= Seq::<char>::empty());
        assert(row@ == reserved_row(run@));
        let item = item_from(key, &row);
        self.items.insert(at, row);
        item
    }

    /// Records how an item ended. An item that was never reserved is refused.
    pub fn record(
        &mut self,
        tenant: &str,
        batch: &str,
        key: &str,
        outcome: &ItemOutcome,
        spend: Spend,
    ) -> (r: Result<(), StoreError>)
        ensures
            match r {
                Ok(_) => old(self)@.items.contains_key((tenant@, (batch@, key@))) && final(self)@
                    == recorded(old(self)@, tenant@, batch@, key@, outcome@, spend),
                Err(e) => !old(self)@.items.contains_key((tenant@, (batch@, key@))) && e@
                    == Refusal::NotFound(item_name(batch@, key@)) && final(self)@ == old(self)@,
            },
    {
        let at = (tenant.to_owned(), (batch.to_owned(), key.to_owned()));
        let run = match self.items.get(&at) {
            None => {
                return Err(StoreError::NotFound(join3(batch, "/", key)));
            },
            Some(row) => StoredId {
                text: row.run.text.clone(),
                fault: match &row.run.fault {
                    Some(f) => Some(f.clone()),
                    None => None,
                },
            },
        };
        let (word, detail) = outcome_to_row(outcome);
        let row = ItemRow { run, outcome: word.to_owned(), has_outcome: 1, detail, spend };
        assert(row@ == recorded_row(self@.items[at@], outcome@, spend));
        self.items.insert(at, row);
        Ok(())
    }

    /// The last item before the first that still needs work, in item order.
    pub fn cursor(&self, tenant: &str, batch: &str) -> (r: Option<String>)
        ensures
            exists|n: nat| #[trigger]
                is_frontier(batch_rows(self@, tenant@, batch@), n) && match r {
                    Some(k) => n > 0 && k@ == batch_rows(self@, tenant@, batch@)[n - 1].0.1.1,
                    None => n == 0,
                },
    {
        let keys = self.items.select(
            &OfBatch { tenant, batch },
            usize::MAX,
            Ghost(of_batch(tenant@, batch@)),
        );
        let ghost rows = batch_rows(self@, tenant@, batch@);
        let mut n: usize = 0;
        let mut last: Option<String> = None;
        while n < keys.len()
            invariant
                rows == batch_rows(self@, tenant@, batch@),
                n <= keys@.len() <= rows.len(),
                keys@.len() == rows.len(),
                forall|i: int|
                    0 <= i < keys@.len() ==> (#[trigger] keys@[i])@ == rows[i].0
                        && self@.items.contains_key(rows[i].0) && self@.items[rows[i].0]
                        == rows[i].1,
                forall|i: int|
                    0 <= i < n ==> !open_item((#[trigger] rows[i]).1.has_outcome, rows[i].1.outcome),
                match last {
                    Some(k) => n > 0 && k@ == rows[n - 1].0.1.1,
                    None => n == 0,
                },
            decreases keys@.len() - n,
        {
            assert(keys@[n as int]@ == rows[n as int].0);
            match self.items.get(&keys[n]) {
                Some(row) => {
                    if is_open(row.has_outcome, &row.outcome) {
                        assert(is_frontier(rows, n as nat));
                        return last;
                    }
                    last = Some(keys[n].1.1.clone());
                },
                None => {},
            }
            n = n + 1;
        }
        assert(is_frontier(rows, n as nat));
        last
    }

    /// Counts a batch's items by how they ended, and sums what they spent.
    pub fn census(&self, tenant: &str, batch: &str) -> (r: Result<BatchCensus, StoreError>)
        ensures
            match r {
                Ok(c) => countable(batch_rows(self@, tenant@, batch@)) && counted(
                    batch_rows(self@, tenant@, batch@),
                    c,
                ),
                Err(e) => exists|n: int| #[trigger]
                    stops_at(batch_rows(self@, tenant@, batch@), n) && e@ == census_refusal(
                        batch_rows(self@, tenant@, batch@),
                        n,
                    ),
            },
    {
        let keys = self.items.select(
            &OfBatch { tenant, batch },
            usize::MAX,
            Ghost(of_batch(tenant@, batch@)),
        );
        let ghost rows = batch_rows(self@, tenant@, batch@);
        let mut c = BatchCensus {
            succeeded: 0,
            failed: 0,
            quarantined: 0,
            suspended: 0,
            exhausted: 0,
            in_flight: 0,
            spend: Spend { tokens: 0, minor_units: 0 },
        };
        let mut n: usize = 0;
        while n < keys.len()
            invariant
                rows == batch_rows(self@, tenant@, batch@),
                n <= keys@.len(),
                keys@.len() == rows.len(),
                forall|i: int|
                    0 <= i < keys@.len() ==> (#[trigger] keys@[i])@ == rows[i].0
                        && self@.items.contains_key(rows[i].0) && self@.items[rows[i].0]
                        == rows[i].1,
                countable(rows.take(n as int)),
                counted(rows.take(n as int), c),
            decreases keys@.len() - n,
        {
            assert(keys@[n as int]@ == rows[n as int].0);
            let ghost before = rows.take(n as int);
            let ghost after = rows.take(n + 1);
            proof {
                reveal_outcome_words();
                lemma_counts(before);
                assert(after.drop_last() =~= before);
                assert(after.last() == rows[n as int]);
                assert forall|i: int| 0 <= i < after.len() && i != n implies readable(
                    (#[trigger] after[i]).1,
                ) by {
                    assert(after[i] == before[i]);
                }
            }
            match self.items.get(&keys[n]) {
                Some(row) => {
                    assert(row@ == after.last().1);
                    if row.has_outcome == 1 {
                        if same(&row.outcome, "succeeded") {
                            c.succeeded = c.succeeded + 1;
                        } else if same(&row.outcome, "failed") {
                            c.failed = c.failed + 1;
                        } else if same(&row.outcome, "quarantined") {
                            c.quarantined = c.quarantined + 1;
                        } else if same(&row.outcome, "suspended") {
                            c.suspended = c.suspended + 1;
                        } else if same(&row.outcome, "exhausted") {
                            c.exhausted = c.exhausted + 1;
                        } else {
                            assert(stops_at(rows, n as int));
                            return Err(
                                StoreError::Corrupt {
                                    seq: 0,
                                    detail: join3("unknown item outcome '", &row.outcome, "'"),
                                },
                            );
                        }
                    } else {
                        c.in_flight = c.in_flight + 1;
                    }
                    assert(readable(row@));
                    match (
                        c.spend.tokens.checked_add(row.spend.tokens),
                        c.spend.minor_units.checked_add(row.spend.minor_units),
                    ) {
                        (Some(tokens), Some(minor_units)) => {
                            c.spend = Spend { tokens, minor_units };
                        },
                        _ => {
                            assert(!countable(after));
                            assert(stops_at(rows, n as int));
                            return Err(StoreError::Backend("batch spend overflow".to_owned()));
                        },
                    }
                },
                None => {},
            }
            n = n + 1;
        }
        assert(rows.take(n as int) =~= rows);
        Ok(c)
    }

    /// A batch's items in item order, no more than `limit` of them.
    pub fn items(&self, tenant: &str, batch: &str, limit: usize) -> (r: Result<
        Vec<ItemRecord>,
        StoreError,
    >)
        ensures
            ({
                let rows = batch_rows(self@, tenant@, batch@);
                match r {
                    Ok(out) => items_read(rows, page(rows.len(), limit)) == Ok::<
                        Seq<ItemModel>,
                        Refusal,
                    >(items_of(out@)),
                    Err(e) => items_read(rows, page(rows.len(), limit)) == Err::<
                        Seq<ItemModel>,
                        Refusal,
                    >(e@),
                }
            }),
    {
        let keys = self.items.select(
            &OfBatch { tenant, batch },
            limit,
            Ghost(of_batch(tenant@, batch@)),
        );
        let ghost rows = batch_rows(self@, tenant@, batch@);
        let mut out: Vec<ItemRecord> = Vec::new();
        let mut n: usize = 0;
        assert(items_of(out@) =~= Seq::<ItemModel>::empty());
        while n < keys.len()
            invariant
                rows == batch_rows(self@, tenant@, batch@),
                n <= keys@.len(),
                keys@.len() == page(rows.len(), limit),
                forall|i: int|
                    0 <= i < keys@.len() ==> (#[trigger] keys@[i])@ == rows[i].0
                        && self@.items.contains_key(rows[i].0) && self@.items[rows[i].0]
                        == rows[i].1,
                items_read(rows, n as int) == Ok::<Seq<ItemModel>, Refusal>(items_of(out@)),
            decreases keys@.len() - n,
        {
            assert(keys@[n as int]@ == rows[n as int].0);
            match self.items.get(&keys[n]) {
                Some(row) => {
                    match item_from(&keys[n].1.1, row) {
                        Err(e) => {
                            assert(items_read(rows, n + 1) == Err::<Seq<ItemModel>, Refusal>(e@));
                            proof {
                                lemma_read_refused(rows, n + 1, keys@.len() as int);
                            }
                            return Err(e);
                        },
                        Ok(item) => {
                            let ghost so_far = items_of(out@);
                            let ghost last = item@;
                            out.push(item);
                            assert(items_of(out@) =~= so_far.push(last));
                        },
                    }
                },
                None => {},
            }
            n = n + 1;
        }
        Ok(out)
    }
}

// ── Laws ────────────────────────────────────────────────────────────────────

/// The cursor never steps over an item that needs work: whatever item of the
/// batch does not come after it is finished.
pub proof fn law_cursor_steps_over_no_open_item(
    st: BatchState,
    t: Seq<char>,
    b: Seq<char>,
    n: nat,
    item: Seq<char>,
)
    requires
        st.items.dom().finite(),
        is_frontier(batch_rows(st, t, b), n),
        n > 0,
        st.items.contains_key((t, (b, item))),
        !crate::table::text_before(batch_rows(st, t, b)[n - 1].0.1.1, item),
    ensures
        !open_item(
            st.items[(t, (b, item))].has_outcome,
            st.items[(t, (b, item))].outcome,
        ),
{
    let rows = batch_rows(st, t, b);
    let f = of_batch(t, b);
    crate::table::lemma_chosen::<(String, (String, String)), ItemRowModel>(st.items, f);
    let k = (t, (b, item));
    assert(st.items.contains_key(k) && f((k, st.items[k])));
    assert(has_key(rows, k));
    let i = choose|i: int| 0 <= i < rows.len() && (#[trigger] rows[i]).0 == k;
    if i >= n {
        assert(<(String, (String, String)) as Key>::precedes(rows[n - 1].0, rows[i].0));
        assert(f(rows[n - 1]));
        <String as Key>::lemma_irreflexive(t);
        <String as Key>::lemma_irreflexive(b);
    }
}

/// The cursor is one: no two places are both the frontier.
pub proof fn law_frontier_is_one(rows: Seq<(ItemKey, ItemRowModel)>, a: nat, b: nat)
    requires
        is_frontier(rows, a),
        is_frontier(rows, b),
    ensures
        a == b,
{
    if a < b {
        assert(!open_item(rows[a as int].1.has_outcome, rows[a as int].1.outcome));
    } else if b < a {
        assert(!open_item(rows[b as int].1.has_outcome, rows[b as int].1.outcome));
    }
}

/// An item keeps the run it was first reserved for, through every later
/// reservation and every recorded outcome.
pub proof fn law_first_run_stands(
    st: BatchState,
    t: Seq<char>,
    b: Seq<char>,
    item: Seq<char>,
    run: Seq<char>,
    again: Seq<char>,
    o: OutcomeModel,
    spend: Spend,
)
    requires
        !st.items.contains_key((t, (b, item))),
    ensures
        ({
            let k = (t, (b, item));
            let first = reserved(st, t, b, item, run);
            let after = BatchState {
                items: first.items.insert(k, recorded_row(first.items[k], o, spend)),
                ..first
            };
            &&& first.items[k].run.text == run
            &&& reserved(first, t, b, item, again) == first
            &&& after.items[k].run.text == run
            &&& reserved(after, t, b, item, again) == after
        }),
{
}

/// What was recorded of an item is what is read of it.
pub proof fn law_record_reads_back(
    key: Seq<char>,
    row: ItemRowModel,
    o: OutcomeModel,
    spend: Spend,
)
    requires
        row.run.fault is None,
    ensures
        item_read(key, recorded_row(row, o, spend)) == Ok::<ItemModel, Refusal>(
            ItemModel { key, run: row.run.text, outcome: Some(o), spend },
        ),
{
    law_outcome_round_trip(o);
}

/// A batch runs one plan: once it is open, opening it on another is refused and
/// changes nothing, and the plan it was opened on stands.
pub proof fn law_plan_is_frozen(
    st: BatchState,
    t: Seq<char>,
    b: Seq<char>,
    first: Seq<char>,
    later: Seq<char>,
)
    requires
        !st.batches.contains_key((t, b)),
    ensures
        ({
            let open = opened(st, t, b, first);
            &&& open_refusal(st, t, b, first) is None
            &&& open.batches[(t, b)].0 == first
            &&& open_refusal(open, t, b, later) is Some <==> later != first
            &&& opened(open, t, b, later) == open
        }),
{
}

/// Two tenants' batches of one name are two batches.
pub proof fn law_batch_tenants_apart(
    st: BatchState,
    t: Seq<char>,
    other: Seq<char>,
    b: Seq<char>,
    item: Seq<char>,
    run: Seq<char>,
    digest: Seq<char>,
)
    requires
        t != other,
        st.items.dom().finite(),
    ensures
        opened(st, t, b, digest).batches.contains_key((other, b)) == st.batches.contains_key(
            (other, b),
        ),
        reserved(st, t, b, item, run).items.contains_key((other, (b, item)))
            == st.items.contains_key((other, (b, item))),
        forall|i: int|
            0 <= i < batch_rows(st, t, b).len() ==> (#[trigger] batch_rows(st, t, b)[i]).0.0 == t,
{
    crate::table::lemma_chosen::<(String, (String, String)), ItemRowModel>(
        st.items,
        of_batch(t, b),
    );
    assert forall|i: int| 0 <= i < batch_rows(st, t, b).len() implies (#[trigger] batch_rows(
        st,
        t,
        b,
    )[i]).0.0 == t by {
        assert(of_batch(t, b)(batch_rows(st, t, b)[i]));
    }
}

} // verus!
