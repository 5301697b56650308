//! Standing authority: terms that are written once, a balance that draws move,
//! and one receipt per draw.
//!
//! The receipts make a retry idempotent: a draw is named by the dispatch that
//! took it, and a second draw under that name is the first one's receipt.

use vstd::prelude::*;

use crate::batches::Spend;
use crate::error::{Refusal, StoreError};
use crate::table::Table;
use crate::text::{join, said, same};

verus! {

/// A refusal by the authority store.
#[derive(Debug)]
pub enum AuthorityError {
    /// No such authority was issued.
    Unknown(String),
    /// It was issued on other terms.
    AlreadyIssued(String),
    /// It was taken back, and why.
    Revoked { id: String, reason: String },
    /// The terms do not permit the draw, and say why.
    Denied(String),
    /// The store could not answer.
    Unavailable(String),
}

/// What an [`AuthorityError`] says.
pub enum AuthorityRefusal {
    Unknown(Seq<char>),
    AlreadyIssued(Seq<char>),
    Revoked { id: Seq<char>, reason: Seq<char> },
    Denied(Seq<char>),
    Unavailable(Seq<char>),
}

impl View for AuthorityError {
    type V = AuthorityRefusal;

    open spec fn view(&self) -> AuthorityRefusal {
        match self {
            AuthorityError::Unknown(id) => AuthorityRefusal::Unknown(id@),
            AuthorityError::AlreadyIssued(id) => AuthorityRefusal::AlreadyIssued(id@),
            AuthorityError::Revoked { id, reason } => AuthorityRefusal::Revoked {
                id: id@,
                reason: reason@,
            },
            AuthorityError::Denied(why) => AuthorityRefusal::Denied(why@),
            AuthorityError::Unavailable(why) => AuthorityRefusal::Unavailable(why@),
        }
    }
}

/// What the terms of an authority say to a draw.
#[derive(Debug)]
pub enum Verdict {
    /// The stored terms do not parse, and why.
    Unreadable(String),
    /// They do not permit it.
    Refused(AuthorityError),
    /// They permit it, and this is left to draw.
    Left(Spend),
}

/// What a [`Verdict`] says.
pub enum VerdictModel {
    Unreadable(Seq<char>),
    Refused(AuthorityRefusal),
    Left(Spend),
}

impl View for Verdict {
    type V = VerdictModel;

    open spec fn view(&self) -> VerdictModel {
        match self {
            Verdict::Unreadable(why) => VerdictModel::Unreadable(why@),
            Verdict::Refused(e) => VerdictModel::Refused(e@),
            Verdict::Left(left) => VerdictModel::Left(*left),
        }
    }
}

pub open spec fn unreadable_text(why: Seq<char>) -> Seq<char> {
    "stored authority is unreadable: "@ + why
}

/// What has been drawn, and whether the authority still stands. That it was
/// revoked is a flag and no special instant: every instant is one at which it
/// can be revoked.
#[derive(Debug)]
pub struct BalanceRow {
    pub drawn: Spend,
    pub draws: u32,
    pub revoked: bool,
    pub revoked_at: i64,
    /// Whether that is no instant.
    pub revoked_fault: bool,
    pub reason: String,
}

/// What a [`BalanceRow`] says.
pub struct BalanceModel {
    pub drawn: Spend,
    pub draws: u32,
    pub revoked: bool,
    pub revoked_at: i64,
    pub revoked_fault: bool,
    pub reason: Seq<char>,
}

impl View for BalanceRow {
    type V = BalanceModel;

    open spec fn view(&self) -> BalanceModel {
        BalanceModel {
            drawn: self.drawn,
            draws: self.draws,
            revoked: self.revoked,
            revoked_at: self.revoked_at,
            revoked_fault: self.revoked_fault,
            reason: self.reason@,
        }
    }
}

/// What one draw took, and what it left.
#[derive(Clone, Copy, Debug, PartialEq, Eq)]
pub struct Receipt {
    pub amount: Spend,
    pub remaining: Spend,
    pub draws: u32,
}

impl View for Receipt {
    type V = Receipt;

    open spec fn view(&self) -> Receipt {
        *self
    }
}

/// An authority, what was drawn on it and whether it was taken back.
#[derive(Debug)]
pub struct AuthorityState {
    /// The terms, as canonical JSON text.
    pub terms: String,
    pub drawn: Spend,
    pub draws: u32,
    /// When it was revoked, and why.
    pub revoked: Option<(i64, String)>,
}

/// What an [`AuthorityState`] says.
pub struct AuthorityModel {
    pub terms: Seq<char>,
    pub drawn: Spend,
    pub draws: u32,
    pub revoked: Option<(i64, Seq<char>)>,
}

impl View for AuthorityState {
    type V = AuthorityModel;

    open spec fn view(&self) -> AuthorityModel {
        AuthorityModel {
            terms: self.terms@,
            drawn: self.drawn,
            draws: self.draws,
            revoked: match self.revoked {
                Some((at, why)) => Some((at, why@)),
                None => None,
            },
        }
    }
}

/// A tenant's authority.
pub type AuthorityKey = (Seq<char>, Seq<char>);

/// One draw on a tenant's authority.
pub type DrawKey = (Seq<char>, (Seq<char>, Seq<char>));

/// What the authority tables hold.
#[verifier::ext_equal]
pub struct LedgerState {
    pub terms: Map<AuthorityKey, Seq<char>>,
    pub balance: Map<AuthorityKey, BalanceModel>,
    pub receipts: Map<DrawKey, Receipt>,
}

/// The standing authorities of a plane.
pub struct AuthorityBook {
    pub terms: Table<(String, String), String>,
    pub balance: Table<(String, String), BalanceRow>,
    pub receipts: Table<(String, (String, String)), Receipt>,
}

impl View for AuthorityBook {
    type V = LedgerState;

    open spec fn view(&self) -> LedgerState {
        LedgerState {
            terms: self.terms@,
            balance: self.balance@,
            receipts: self.receipts@,
        }
    }
}

/// Tables with no authorities.
pub open spec fn no_authorities() -> LedgerState {
    LedgerState { terms: Map::empty(), balance: Map::empty(), receipts: Map::empty() }
}

/// Nothing spent.
pub open spec fn nothing() -> Spend {
    Spend { tokens: 0, minor_units: 0 }
}

/// The balance of an authority that nothing was drawn on.
pub open spec fn untouched() -> BalanceModel {
    BalanceModel {
        drawn: nothing(),
        draws: 0,
        revoked: false,
        revoked_at: 0,
        revoked_fault: false,
        reason: Seq::empty(),
    }
}

/// The balance of an authority.
pub open spec fn balance_of(st: LedgerState, t: Seq<char>, id: Seq<char>) -> BalanceModel {
    if st.balance.contains_key((t, id)) {
        st.balance[(t, id)]
    } else {
        untouched()
    }
}

/// Whether issuing an authority is refused: it was issued on other terms.
pub open spec fn reissued(st: LedgerState, t: Seq<char>, id: Seq<char>, terms: Seq<char>) -> bool {
    st.terms.contains_key((t, id)) && st.terms[(t, id)] != terms
}

/// The tables after an authority was issued. Issuing it again on the same terms
/// changes nothing.
pub open spec fn issued(st: LedgerState, t: Seq<char>, id: Seq<char>, terms: Seq<char>) -> LedgerState {
    if st.terms.contains_key((t, id)) {
        st
    } else {
        LedgerState {
            terms: st.terms.insert((t, id), terms),
            balance: st.balance.insert((t, id), untouched()),
            ..st
        }
    }
}

/// The sum of two amounts, no more than an amount can be.
pub open spec fn capped_sum(a: u64, b: u64) -> u64 {
    if a + b > u64::MAX {
        u64::MAX
    } else {
        (a + b) as u64
    }
}

/// What is left of an amount, no less than nothing.
pub open spec fn floored_rest(a: u64, b: u64) -> u64 {
    if a < b {
        0
    } else {
        (a - b) as u64
    }
}

/// The receipt of a draw, given what the terms say is left to draw.
pub open spec fn receipt_for(b: BalanceModel, amount: Spend, remaining: Spend) -> Receipt {
    Receipt {
        amount,
        remaining: Spend {
            tokens: floored_rest(remaining.tokens, amount.tokens),
            minor_units: floored_rest(remaining.minor_units, amount.minor_units),
        },
        draws: (b.draws + 1) as u32,
    }
}

/// What a draw answers, given what the terms say to it: what is left to draw, or
/// why not.
///
/// A draw that already landed is answered with its receipt before anything else
/// is looked at. Terms that do not parse answer nothing; that an authority was
/// taken back comes before what its terms say.
pub open spec fn draw_answer(
    st: LedgerState,
    t: Seq<char>,
    id: Seq<char>,
    key: Seq<char>,
    amount: Spend,
    permits: VerdictModel,
) -> Result<Receipt, AuthorityRefusal> {
    if st.receipts.contains_key((t, (id, key))) {
        Ok(st.receipts[(t, (id, key))])
    } else if !st.terms.contains_key((t, id)) {
        Err(AuthorityRefusal::Unknown(id))
    } else if permits is Unreadable {
        Err(AuthorityRefusal::Unavailable(unreadable_text(permits->Unreadable_0)))
    } else if balance_of(st, t, id).revoked {
        Err(AuthorityRefusal::Revoked { id, reason: balance_of(st, t, id).reason })
    } else {
        match permits {
            VerdictModel::Unreadable(why) => Err(
                AuthorityRefusal::Unavailable(unreadable_text(why)),
            ),
            VerdictModel::Refused(e) => Err(e),
            VerdictModel::Left(remaining) => if balance_of(st, t, id).draws == u32::MAX {
                Err(AuthorityRefusal::Unavailable("draw count overflow"@))
            } else {
                Ok(receipt_for(balance_of(st, t, id), amount, remaining))
            },
        }
    }
}

/// The tables after a draw. One that is refused, and one that already landed,
/// change nothing.
pub open spec fn drawn(
    st: LedgerState,
    t: Seq<char>,
    id: Seq<char>,
    key: Seq<char>,
    amount: Spend,
    permits: VerdictModel,
) -> LedgerState {
    match draw_answer(st, t, id, key, amount, permits) {
        Ok(receipt) if !st.receipts.contains_key((t, (id, key))) => LedgerState {
            balance: st.balance.insert(
                (t, id),
                BalanceModel {
                    drawn: Spend {
                        tokens: capped_sum(balance_of(st, t, id).drawn.tokens, amount.tokens),
                        minor_units: capped_sum(
                            balance_of(st, t, id).drawn.minor_units,
                            amount.minor_units,
                        ),
                    },
                    draws: receipt.draws,
                    revoked: false,
                    revoked_at: 0,
                    revoked_fault: false,
                    reason: Seq::empty(),
                },
            ),
            receipts: st.receipts.insert((t, (id, key)), receipt),
            ..st
        },
        _ => st,
    }
}

/// The tables after an authority was taken back. The first time stands, with its
/// reason.
pub open spec fn revoked(st: LedgerState, t: Seq<char>, id: Seq<char>, reason: Seq<char>, at: i64) -> LedgerState {
    if st.balance.contains_key((t, id)) && !st.balance[(t, id)].revoked {
        LedgerState {
            balance: st.balance.insert(
                (t, id),
                BalanceModel {
                    revoked: true,
                    revoked_at: at,
                    revoked_fault: false,
                    reason,
                    ..st.balance[(t, id)]
                },
            ),
            ..st
        }
    } else {
        st
    }
}

/// How an authority reads where its terms parse. One that was taken back at no
/// instant was taken back when time began.
pub open spec fn standing(st: LedgerState, t: Seq<char>, id: Seq<char>) -> Option<AuthorityModel> {
    if st.terms.contains_key((t, id)) {
        let b = balance_of(st, t, id);
        Some(
            AuthorityModel {
                terms: st.terms[(t, id)],
                drawn: b.drawn,
                draws: b.draws,
                revoked: if b.revoked {
                    Some(
                        (
                            if b.revoked_fault {
                                0
                            } else {
                                b.revoked_at
                            },
                            b.reason,
                        ),
                    )
                } else {
                    None
                },
            },
        )
    } else {
        None
    }
}

/// What asking for an authority answers, given what is wrong with its terms
/// where they do not parse.
pub open spec fn state_answer(
    st: LedgerState,
    t: Seq<char>,
    id: Seq<char>,
    fault: Option<Seq<char>>,
) -> Result<Option<AuthorityModel>, Refusal> {
    match fault {
        Some(why) if st.terms.contains_key((t, id)) => Err(
            Refusal::Backend(unreadable_text(why)),
        ),
        _ => Ok(standing(st, t, id)),
    }
}

impl AuthorityBook {
    /// Tables with no authorities.
    pub fn new() -> (b: AuthorityBook)
        ensures
            b@ == no_authorities(),
    {
        AuthorityBook { terms: Table::new(), balance: Table::new(), receipts: Table::new() }
    }

    /// Issues an authority. Its terms are never rewritten: issuing it again on
    /// the same terms changes nothing, and on others is refused.
    pub fn issue(&mut self, tenant: &str, id: &str, terms: &str) -> (r: Result<(), AuthorityError>)
        ensures
            match r {
                Ok(_) => !reissued(old(self)@, tenant@, id@, terms@) && final(self)@ == issued(
                    old(self)@,
                    tenant@,
                    id@,
                    terms@,
                ),
                Err(e) => reissued(old(self)@, tenant@, id@, terms@) && e@
                    == AuthorityRefusal::AlreadyIssued(id@) && final(self)@ == old(self)@,
            },
    {
        let key = (tenant.to_owned(), id.to_owned());
        match self.terms.get(&key) {
            Some(stored) => {
                if same(stored, terms) {
                    Ok(())
                } else {
                    Err(AuthorityError::AlreadyIssued(id.to_owned()))
                }
            },
            None => {
                self.terms.insert(key, terms.to_owned());
                let row = BalanceRow {
                    drawn: Spend { tokens: 0, minor_units: 0 },
                    draws: 0,
                    revoked: false,
                    revoked_at: 0,
                    revoked_fault: false,
                    reason: String::new(),
                };
                assert(row.reason@ =~= Seq::<char>::empty());
                self.balance.insert((tenant.to_owned(), id.to_owned()), row);
                Ok(())
            },
        }
    }

    /// The balance of an authority.
    pub fn balance(&self, tenant: &str, id: &str) -> (b: BalanceRow)
        ensures
            b@ == balance_of(self@, tenant@, id@),
    {
        match self.balance.get(&(tenant.to_owned(), id.to_owned())) {
            Some(row) => BalanceRow {
                drawn: row.drawn,
                draws: row.draws,
                revoked: row.revoked,
                revoked_at: row.revoked_at,
                revoked_fault: row.revoked_fault,
                reason: row.reason.clone(),
            },
            None => {
                let b = BalanceRow {
                    drawn: Spend { tokens: 0, minor_units: 0 },
                    draws: 0,
                    revoked: false,
                    revoked_at: 0,
                    revoked_fault: false,
                    reason: String::new(),
                };
                assert(b.reason@ =~= Seq::<char>::empty());
                b
            },
        }
    }

    /// Draws on an authority, given what its terms say to the draw.
    pub fn draw(
        &mut self,
        tenant: &str,
        id: &str,
        key: &str,
        amount: Spend,
        permits: Verdict,
    ) -> (r: Result<Receipt, AuthorityError>)
        ensures
            draw_answer(old(self)@, tenant@, id@, key@, amount, permits@) == match r {
                Ok(receipt) => Ok::<Receipt, AuthorityRefusal>(receipt),
                Err(e) => Err::<Receipt, AuthorityRefusal>(e@),
            },
            final(self)@ == drawn(old(self)@, tenant@, id@, key@, amount, permits@),
    {
        let at = (tenant.to_owned(), (id.to_owned(), key.to_owned()));
        if let Some(prior) = self.receipts.get(&at) {
            assert(prior@ == *prior);
            return Ok(*prior);
        }
        if !self.terms.contains(&(tenant.to_owned(), id.to_owned())) {
            return Err(AuthorityError::Unknown(id.to_owned()));
        }
        if let Verdict::Unreadable(why) = &permits {
            return Err(
                AuthorityError::Unavailable(join("stored authority is unreadable: ", why)),
            );
        }
        let b = self.balance(tenant, id);
        if b.revoked {
            return Err(AuthorityError::Revoked { id: id.to_owned(), reason: b.reason });
        }
        let remaining = match permits {
            Verdict::Unreadable(why) => {
                return Err(
                    AuthorityError::Unavailable(join("stored authority is unreadable: ", &why)),
                );
            },
            Verdict::Refused(e) => {
                return Err(e);
            },
            Verdict::Left(remaining) => remaining,
        };
        if b.draws == u32::MAX {
            return Err(AuthorityError::Unavailable("draw count overflow".to_owned()));
        }
        let draws: u32 = b.draws + 1;
        let row = BalanceRow {
            drawn: Spend {
                tokens: b.drawn.tokens.saturating_add(amount.tokens),
                minor_units: b.drawn.minor_units.saturating_add(amount.minor_units),
            },
            draws,
            revoked: false,
            revoked_at: 0,
            revoked_fault: false,
            reason: String::new(),
        };
        assert(row.reason@ =~= Seq::<char>::empty());
        let receipt = Receipt {
            amount,
            remaining: Spend {
                tokens: remaining.tokens.saturating_sub(amount.tokens),
                minor_units: remaining.minor_units.saturating_sub(amount.minor_units),
            },
            draws,
        };
        self.balance.insert((tenant.to_owned(), id.to_owned()), row);
        self.receipts.insert(at, receipt);
        Ok(receipt)
    }

    /// Takes an authority back. The first time stands, with its reason.
    pub fn revoke(&mut self, tenant: &str, id: &str, reason: &str, at: i64) -> (r: Result<
        (),
        AuthorityError,
    >)
        ensures
            final(self)@ == revoked(old(self)@, tenant@, id@, reason@, at),
            match r {
                Ok(_) => old(self)@.balance.contains_key((tenant@, id@)),
                Err(e) => !old(self)@.balance.contains_key((tenant@, id@)) && e@
                    == AuthorityRefusal::Unknown(id@),
            },
    {
        let key = (tenant.to_owned(), id.to_owned());
        let row = match self.balance.get(&key) {
            None => {
                return Err(AuthorityError::Unknown(id.to_owned()));
            },
            Some(row) => {
                if row.revoked {
                    return Ok(());
                }
                BalanceRow {
                    drawn: row.drawn,
                    draws: row.draws,
                    revoked: true,
                    revoked_at: at,
                    revoked_fault: false,
                    reason: reason.to_owned(),
                }
            },
        };
        self.balance.insert(key, row);
        Ok(())
    }

    /// An authority: its terms, what was drawn on it, and whether it stands,
    /// given what is wrong with the terms where they do not parse.
    pub fn state(&self, tenant: &str, id: &str, fault: &Option<String>) -> (r: Result<
        Option<AuthorityState>,
        StoreError,
    >)
        ensures
            state_answer(self@, tenant@, id@, said(*fault)) == match r {
                Ok(Some(s)) => Ok::<Option<AuthorityModel>, Refusal>(Some(s@)),
                Ok(None) => Ok::<Option<AuthorityModel>, Refusal>(None),
                Err(e) => Err::<Option<AuthorityModel>, Refusal>(e@),
            },
    {
        match self.terms.get(&(tenant.to_owned(), id.to_owned())) {
            None => Ok(None),
            Some(terms) => {
                if let Some(why) = fault {
                    return Err(
                        StoreError::Backend(join("stored authority is unreadable: ", why)),
                    );
                }
                let b = self.balance(tenant, id);
                let at: i64 = if b.revoked_fault {
                    0
                } else {
                    b.revoked_at
                };
                Ok(
                    Some(
                        AuthorityState {
                            terms: terms.clone(),
                            drawn: b.drawn,
                            draws: b.draws,
                            revoked: if b.revoked {
                                Some((at, b.reason))
                            } else {
                                None
                            },
                        },
                    ),
                )
            },
        }
    }
}

// ── Laws ────────────────────────────────────────────────────────────────────

/// A draw lands once. Whatever happens to the authority after it, the same
/// dispatch drawing again is answered with the same receipt, and nothing moves.
pub proof fn law_draw_lands_once(
    st: LedgerState,
    t: Seq<char>,
    id: Seq<char>,
    key: Seq<char>,
    amount: Spend,
    permits: VerdictModel,
    reason: Seq<char>,
    at: i64,
    again: Spend,
    later: VerdictModel,
)
    requires
        draw_answer(st, t, id, key, amount, permits) is Ok,
    ensures
        ({
            let after = revoked(drawn(st, t, id, key, amount, permits), t, id, reason, at);
            &&& draw_answer(after, t, id, key, again, later) == draw_answer(
                st,
                t,
                id,
                key,
                amount,
                permits,
            )
            &&& drawn(after, t, id, key, again, later) == after
        }),
{
}

/// Two dispatches that draw the same amount draw twice.
pub proof fn law_equal_draws_are_two(
    st: LedgerState,
    t: Seq<char>,
    id: Seq<char>,
    key: Seq<char>,
    other: Seq<char>,
    amount: Spend,
    permits: VerdictModel,
)
    requires
        key != other,
        !st.receipts.contains_key((t, (id, key))),
        !st.receipts.contains_key((t, (id, other))),
        draw_answer(st, t, id, key, amount, permits) is Ok,
        draw_answer(
            drawn(st, t, id, key, amount, permits),
            t,
            id,
            other,
            amount,
            permits,
        ) is Ok,
    ensures
        drawn(
            drawn(st, t, id, key, amount, permits),
            t,
            id,
            other,
            amount,
            permits,
        ).balance[(t, id)].draws == balance_of(st, t, id).draws + 2,
{
}

/// A draw that the terms permit stays under their ceiling: with what is left
/// told rightly and no more than that drawn, what was drawn and what is left
/// come to the ceiling, before and after.
pub proof fn law_ceiling_holds(
    st: LedgerState,
    t: Seq<char>,
    id: Seq<char>,
    key: Seq<char>,
    amount: Spend,
    ceiling: Spend,
    remaining: Spend,
)
    requires
        balance_of(st, t, id).drawn.tokens + remaining.tokens == ceiling.tokens,
        balance_of(st, t, id).drawn.minor_units + remaining.minor_units == ceiling.minor_units,
        amount.tokens <= remaining.tokens,
        amount.minor_units <= remaining.minor_units,
        !st.receipts.contains_key((t, (id, key))),
        draw_answer(st, t, id, key, amount, VerdictModel::Left(remaining)) is Ok,
    ensures
        ({
            let receipt = draw_answer(
                st,
                t,
                id,
                key,
                amount,
                VerdictModel::Left(remaining),
            )->Ok_0;
            let after = drawn(
                st,
                t,
                id,
                key,
                amount,
                VerdictModel::Left(remaining),
            ).balance[(t, id)];
            &&& after.drawn.tokens + receipt.remaining.tokens == ceiling.tokens
            &&& after.drawn.minor_units + receipt.remaining.minor_units == ceiling.minor_units
            &&& after.drawn.tokens == balance_of(st, t, id).drawn.tokens + amount.tokens
        }),
{
}

/// An authority that was taken back stays taken back: no draw that had not
/// landed lands, and the first reason is the one that is given.
pub proof fn law_revocation_stands(
    st: LedgerState,
    t: Seq<char>,
    id: Seq<char>,
    reason: Seq<char>,
    at: i64,
    second: Seq<char>,
    later: i64,
    key: Seq<char>,
    amount: Spend,
    permits: VerdictModel,
)
    requires
        st.balance.contains_key((t, id)),
        st.terms.contains_key((t, id)),
        !st.balance[(t, id)].revoked,
        !st.receipts.contains_key((t, (id, key))),
        !(permits is Unreadable),
    ensures
        ({
            let after = revoked(st, t, id, reason, at);
            &&& revoked(after, t, id, second, later) == after
            &&& draw_answer(after, t, id, key, amount, permits) == Err::<
                Receipt,
                AuthorityRefusal,
            >(AuthorityRefusal::Revoked { id, reason })
            &&& drawn(after, t, id, key, amount, permits) == after
            &&& standing(after, t, id)->0.revoked == Some((at, reason))
        }),
{
}

/// Terms that do not parse permit nothing: no draw that had not landed lands,
/// whether or not the authority was taken back.
pub proof fn law_unreadable_terms_permit_nothing(
    st: LedgerState,
    t: Seq<char>,
    id: Seq<char>,
    key: Seq<char>,
    amount: Spend,
    why: Seq<char>,
)
    requires
        st.terms.contains_key((t, id)),
        !st.receipts.contains_key((t, (id, key))),
    ensures
        draw_answer(st, t, id, key, amount, VerdictModel::Unreadable(why)) == Err::<
            Receipt,
            AuthorityRefusal,
        >(AuthorityRefusal::Unavailable(unreadable_text(why))),
        drawn(st, t, id, key, amount, VerdictModel::Unreadable(why)) == st,
{
}

/// The terms of an authority never change.
pub proof fn law_terms_are_frozen(
    st: LedgerState,
    t: Seq<char>,
    id: Seq<char>,
    terms: Seq<char>,
    other: Seq<char>,
    key: Seq<char>,
    amount: Spend,
    permits: VerdictModel,
    reason: Seq<char>,
    at: i64,
)
    requires
        !st.terms.contains_key((t, id)),
    ensures
        ({
            let first = issued(st, t, id, terms);
            &&& first.terms[(t, id)] == terms
            &&& issued(first, t, id, other) == first
            &&& reissued(first, t, id, other) <==> other != terms
            &&& drawn(first, t, id, key, amount, permits).terms == first.terms
            &&& revoked(first, t, id, reason, at).terms == first.terms
        }),
{
}

/// Two tenants' authorities of one name are two authorities.
pub proof fn law_authority_tenants_apart(
    st: LedgerState,
    t: Seq<char>,
    other: Seq<char>,
    id: Seq<char>,
    key: Seq<char>,
    terms: Seq<char>,
    amount: Spend,
    permits: VerdictModel,
    reason: Seq<char>,
    at: i64,
)
    requires
        t != other,
    ensures
        standing(issued(st, t, id, terms), other, id) == standing(st, other, id),
        standing(drawn(st, t, id, key, amount, permits), other, id) == standing(
            st,
            other,
            id,
        ),
        standing(revoked(st, t, id, reason, at), other, id) == standing(st, other, id),
{
}

/// A draw is answered by what decides it, in this order: a draw that landed by its
/// receipt; an authority that was never issued, or whose terms do not read, or that
/// was taken back, by a refusal; and otherwise by what its terms say.
pub proof fn law_draw_is_decided_in_order(
    st: LedgerState,
    t: Seq<char>,
    id: Seq<char>,
    key: Seq<char>,
    amount: Spend,
    permits: VerdictModel,
)
    ensures
        ({
            let answer = draw_answer(st, t, id, key, amount, permits);
            let landed = st.receipts.contains_key((t, (id, key)));
            let taken_back = st.balance.contains_key((t, id)) && st.balance[(t, id)].revoked;
            &&& landed ==> answer == Ok::<Receipt, AuthorityRefusal>(
                st.receipts[(t, (id, key))],
            )
            &&& !landed && !st.terms.contains_key((t, id)) ==> answer == Err::<
                Receipt,
                AuthorityRefusal,
            >(AuthorityRefusal::Unknown(id))
            &&& !landed && st.terms.contains_key((t, id)) && taken_back && !(
            permits is Unreadable) ==> answer == Err::<Receipt, AuthorityRefusal>(
                AuthorityRefusal::Revoked { id, reason: st.balance[(t, id)].reason },
            )
            &&& !landed && st.terms.contains_key((t, id)) && !taken_back ==> match permits {
                VerdictModel::Refused(why) => answer == Err::<Receipt, AuthorityRefusal>(why),
                VerdictModel::Unreadable(_) => answer is Err,
                VerdictModel::Left(left) => answer is Ok || (st.balance.contains_key((t, id))
                    && st.balance[(t, id)].draws == u32::MAX),
            }
            &&& answer is Ok && !landed ==> st.terms.contains_key((t, id)) && !taken_back
                && permits is Left
        }),
{
}

/// A draw that lands takes what it asked for and nothing else: the receipt says how
/// much it took, what that left and which draw it was, the balance grows by it, and
/// every other authority and every other receipt is as it was.
pub proof fn law_draw_takes_its_amount(
    st: LedgerState,
    t: Seq<char>,
    id: Seq<char>,
    key: Seq<char>,
    amount: Spend,
    left: Spend,
    other: AuthorityKey,
    d: DrawKey,
)
    requires
        !st.receipts.contains_key((t, (id, key))),
        draw_answer(st, t, id, key, amount, VerdictModel::Left(left)) is Ok,
        amount.tokens <= left.tokens,
        amount.minor_units <= left.minor_units,
    ensures
        ({
            let receipt = draw_answer(st, t, id, key, amount, VerdictModel::Left(left))->Ok_0;
            let after = drawn(st, t, id, key, amount, VerdictModel::Left(left));
            let was = balance_of(st, t, id);
            let now = after.balance[(t, id)];
            &&& receipt.amount == amount
            &&& receipt.remaining.tokens == left.tokens - amount.tokens
            &&& receipt.remaining.minor_units == left.minor_units - amount.minor_units
            &&& receipt.draws == was.draws + 1
            &&& after.receipts.contains_key((t, (id, key)))
            &&& after.receipts[(t, (id, key))] == receipt
            &&& now.draws == was.draws + 1
            &&& was.drawn.tokens + amount.tokens <= u64::MAX ==> now.drawn.tokens
                == was.drawn.tokens + amount.tokens
            &&& was.drawn.minor_units + amount.minor_units <= u64::MAX ==> now.drawn.minor_units
                == was.drawn.minor_units + amount.minor_units
            &&& !now.revoked
            &&& !now.revoked_fault
            &&& after.terms == st.terms
            &&& other != (t, id) ==> after.balance.contains_key(other) == st.balance.contains_key(
                other,
            )
            &&& other != (t, id) && st.balance.contains_key(other) ==> after.balance[other]
                == st.balance[other]
            &&& d != (t, (id, key)) ==> after.receipts.contains_key(d) == st.receipts.contains_key(
                d,
            )
            &&& d != (t, (id, key)) && st.receipts.contains_key(d) ==> after.receipts[d]
                == st.receipts[d]
        }),
{
}

/// A draw that is refused takes nothing.
pub proof fn law_refused_draw_takes_nothing(
    st: LedgerState,
    t: Seq<char>,
    id: Seq<char>,
    key: Seq<char>,
    amount: Spend,
    permits: VerdictModel,
)
    requires
        draw_answer(st, t, id, key, amount, permits) is Err,
    ensures
        drawn(st, t, id, key, amount, permits) == st,
{
}

/// An authority is there from when it was issued, with nothing drawn; it says what
/// was drawn, how often, and when and why it was taken back where it was. Issuing
/// or taking back one touches no other.
pub proof fn law_authority_reads_back(
    st: LedgerState,
    t: Seq<char>,
    id: Seq<char>,
    terms: Seq<char>,
    reason: Seq<char>,
    at: i64,
    other: AuthorityKey,
)
    requires
        !st.terms.contains_key((t, id)),
    ensures
        standing(st, t, id) is None,
        ({
            let first = issued(st, t, id, terms);
            let back = revoked(first, t, id, reason, at);
            let a = standing(first, t, id)->0;
            let b = standing(back, t, id)->0;
            &&& standing(first, t, id) is Some
            &&& a.terms == terms
            &&& a.drawn.tokens == 0
            &&& a.drawn.minor_units == 0
            &&& a.draws == 0
            &&& a.revoked is None
            &&& standing(back, t, id) is Some
            &&& b.terms == terms
            &&& b.revoked == Some((at, reason))
            &&& other != (t, id) ==> standing(first, other.0, other.1) == standing(
                st,
                other.0,
                other.1,
            ) && standing(back, other.0, other.1) == standing(st, other.0, other.1)
            &&& first.receipts == st.receipts
            &&& back.receipts == st.receipts
        }),
        st.balance.contains_key(other) && st.terms.contains_key(other) ==> {
            let row = st.balance[other];
            let x = standing(st, other.0, other.1)->0;
            &&& standing(st, other.0, other.1) is Some
            &&& x.terms == st.terms[other]
            &&& x.drawn == row.drawn
            &&& x.draws == row.draws
            &&& x.revoked is Some <==> row.revoked
            &&& row.revoked && !row.revoked_fault ==> x.revoked == Some(
                (row.revoked_at, row.reason),
            )
        },
{
}

/// What asking for an authority answers: that there is none where none was issued; a
/// refusal where its terms do not parse; and how it stands otherwise.
pub proof fn law_authority_is_there_once_issued(
    st: LedgerState,
    t: Seq<char>,
    id: Seq<char>,
    fault: Option<Seq<char>>,
)
    ensures
        state_answer(st, t, id, fault) == Ok::<Option<AuthorityModel>, Refusal>(None)
            <==> !st.terms.contains_key((t, id)),
        state_answer(st, t, id, fault) is Err <==> st.terms.contains_key((t, id)) && fault is Some,
        state_answer(st, t, id, fault) matches Ok(Some(a)) ==> a.terms == st.terms[(t, id)],
{
}

} // verus!
