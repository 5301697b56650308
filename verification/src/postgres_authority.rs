//! Standing authority in a shared database: what it answers where its answer is
//! not the one that a single node's tables give.
//!
//! Terms and balance are a pair: an authority without a balance can be issued
//! again on its terms, and answers nothing until it was.

use vstd::prelude::*;

use crate::authority::{
    floored_rest, reissued, standing, unreadable_text, untouched, AuthorityBook, AuthorityError,
    AuthorityKey, AuthorityModel, AuthorityRefusal, AuthorityState, BalanceModel, BalanceRow,
    DrawKey, LedgerState, Receipt, Verdict, VerdictModel,
};
use crate::batches::Spend;
use crate::error::{Refusal, StoreError};
use crate::postgres_batches::{keep_spend, kept_amount, kept_spend};
use crate::quota::{amount_of, sql_amount};
use crate::text::{join, said, same};

verus! {

/// The tables after an authority was issued on the terms it has: what of the pair
/// is not there is written.
pub open spec fn shared_issued(st: LedgerState, t: Seq<char>, id: Seq<char>, terms: Seq<char>) -> LedgerState {
    LedgerState {
        terms: st.terms.insert((t, id), terms),
        balance: if st.balance.contains_key((t, id)) {
            st.balance
        } else {
            st.balance.insert((t, id), untouched())
        },
        ..st
    }
}

/// Issues an authority. Its terms are never rewritten: issuing it again on other
/// terms is refused.
pub fn issue_shared(book: &mut AuthorityBook, tenant: &str, id: &str, terms: &str) -> (r: Result<
    (),
    AuthorityError,
>)
    ensures
        match r {
            Ok(_) => !reissued(old(book)@, tenant@, id@, terms@) && final(book)@ == shared_issued(
                old(book)@,
                tenant@,
                id@,
                terms@,
            ),
            Err(e) => reissued(old(book)@, tenant@, id@, terms@) && e@
                == AuthorityRefusal::AlreadyIssued(id@) && final(book)@ == old(book)@,
        },
{
    let key = (tenant.to_owned(), id.to_owned());
    if let Some(stored) = book.terms.get(&key) {
        if !same(stored, terms) {
            return Err(AuthorityError::AlreadyIssued(id.to_owned()));
        }
    } else {
        book.terms.insert((tenant.to_owned(), id.to_owned()), terms.to_owned());
    }
    if !book.balance.contains(&key) {
        let row = BalanceRow {
            drawn: Spend { tokens: 0, minor_units: 0 },
            draws: 0,
            revoked: false,
            revoked_at: 0,
            revoked_fault: false,
            reason: String::new(),
        };
        assert(row.reason@ =~= Seq::<char>::empty());
        book.balance.insert(key, row);
    }
    assert(book@.terms =~= old(book)@.terms.insert((tenant@, id@), terms@));
    Ok(())
}

pub open spec fn shared_unreadable_text(why: Seq<char>) -> Seq<char> {
    "stored authority unreadable: "@ + why
}

/// Whether a column holds what is drawn once an amount is added to it.
pub open spec fn column_holds(so_far: u64, amount: u64) -> bool {
    so_far + kept_amount(amount) <= i64::MAX
}

/// Whether a balance holds what is drawn once a spend is added to it.
pub open spec fn balance_holds(b: BalanceModel, amount: Spend) -> bool {
    column_holds(b.drawn.tokens, amount.tokens) && column_holds(
        b.drawn.minor_units,
        amount.minor_units,
    )
}

/// One draw more, as far as draws are counted.
pub open spec fn one_more(draws: u32) -> u32 {
    if draws == u32::MAX {
        draws
    } else {
        (draws + 1) as u32
    }
}

/// What a draw takes and leaves, given what the terms say is left to draw.
pub open spec fn shared_receipt(b: BalanceModel, amount: Spend, remaining: Spend) -> Receipt {
    Receipt {
        amount,
        remaining: Spend {
            tokens: floored_rest(remaining.tokens, amount.tokens),
            minor_units: floored_rest(remaining.minor_units, amount.minor_units),
        },
        draws: one_more(b.draws),
    }
}

/// The receipt that a draw leaves, as its columns hold it.
pub open spec fn kept_receipt(r: Receipt) -> Receipt {
    Receipt { amount: kept_spend(r.amount), remaining: kept_spend(r.remaining), draws: r.draws }
}

/// What a draw answers, given what the terms say to it: what is left to draw, or
/// why not. A draw that already landed is answered with its receipt before
/// anything else is looked at.
pub open spec fn shared_draw_answer(
    st: LedgerState,
    t: Seq<char>,
    id: Seq<char>,
    key: Seq<char>,
    amount: Spend,
    permits: VerdictModel,
) -> Result<Receipt, AuthorityRefusal> {
    if st.receipts.contains_key((t, (id, key))) {
        Ok(st.receipts[(t, (id, key))])
    } else if !st.terms.contains_key((t, id)) {
        Err(AuthorityRefusal::Unknown(id))
    } else if permits is Unreadable {
        Err(AuthorityRefusal::Unavailable(shared_unreadable_text(permits->Unreadable_0)))
    } else if !st.balance.contains_key((t, id)) {
        Err(AuthorityRefusal::Unavailable("stored authority has no balance"@))
    } else if st.balance[(t, id)].revoked {
        Err(AuthorityRefusal::Revoked { id, reason: st.balance[(t, id)].reason })
    } else {
        match permits {
            VerdictModel::Unreadable(why) => Err(
                AuthorityRefusal::Unavailable(shared_unreadable_text(why)),
            ),
            VerdictModel::Refused(e) => Err(e),
            VerdictModel::Left(remaining) => if balance_holds(st.balance[(t, id)], amount) {
                Ok(shared_receipt(st.balance[(t, id)], amount, remaining))
            } else {
                Err(AuthorityRefusal::Unavailable("authority balance out of range"@))
            },
        }
    }
}

/// The tables after a draw. One that is refused, and one that already landed,
/// change nothing.
pub open spec fn shared_drawn(
    st: LedgerState,
    t: Seq<char>,
    id: Seq<char>,
    key: Seq<char>,
    amount: Spend,
    permits: VerdictModel,
) -> LedgerState {
    match shared_draw_answer(st, t, id, key, amount, permits) {
        Ok(receipt) if !st.receipts.contains_key((t, (id, key))) => LedgerState {
            balance: st.balance.insert(
                (t, id),
                BalanceModel {
                    drawn: Spend {
                        tokens: (st.balance[(t, id)].drawn.tokens + kept_amount(amount.tokens)) as u64,
                        minor_units: (st.balance[(t, id)].drawn.minor_units + kept_amount(
                            amount.minor_units,
                        )) as u64,
                    },
                    draws: receipt.draws,
                    ..st.balance[(t, id)]
                },
            ),
            receipts: st.receipts.insert((t, (id, key)), kept_receipt(receipt)),
            ..st
        },
        _ => st,
    }
}

fn added(so_far: u64, amount: u64) -> (r: Option<u64>)
    ensures
        r == if column_holds(so_far, amount) {
            Some((so_far + kept_amount(amount)) as u64)
        } else {
            None
        },
{
    let kept: u64 = amount_of(sql_amount(amount));
    if so_far <= i64::MAX as u64 && kept <= i64::MAX as u64 - so_far {
        Some(so_far + kept)
    } else {
        None
    }
}

/// Draws on an authority, given what its terms say to the draw.
pub fn draw_shared(
    book: &mut AuthorityBook,
    tenant: &str,
    id: &str,
    key: &str,
    amount: Spend,
    permits: Verdict,
) -> (r: Result<Receipt, AuthorityError>)
    ensures
        shared_draw_answer(old(book)@, tenant@, id@, key@, amount, permits@) == match r {
            Ok(receipt) => Ok::<Receipt, AuthorityRefusal>(receipt),
            Err(e) => Err::<Receipt, AuthorityRefusal>(e@),
        },
        final(book)@ == shared_drawn(old(book)@, tenant@, id@, key@, amount, permits@),
{
    let at = (tenant.to_owned(), (id.to_owned(), key.to_owned()));
    if let Some(prior) = book.receipts.get(&at) {
        assert(prior@ == *prior);
        return Ok(*prior);
    }
    if !book.terms.contains(&(tenant.to_owned(), id.to_owned())) {
        return Err(AuthorityError::Unknown(id.to_owned()));
    }
    if let Verdict::Unreadable(why) = &permits {
        return Err(AuthorityError::Unavailable(join("stored authority unreadable: ", why)));
    }
    if !book.balance.contains(&(tenant.to_owned(), id.to_owned())) {
        return Err(AuthorityError::Unavailable("stored authority has no balance".to_owned()));
    }
    let b = book.balance(tenant, id);
    if b.revoked {
        return Err(AuthorityError::Revoked { id: id.to_owned(), reason: b.reason });
    }
    let remaining = match permits {
        Verdict::Unreadable(why) => {
            return Err(AuthorityError::Unavailable(join("stored authority unreadable: ", &why)));
        },
        Verdict::Refused(e) => {
            return Err(e);
        },
        Verdict::Left(remaining) => remaining,
    };
    let (tokens, minor_units) = match (
        added(b.drawn.tokens, amount.tokens),
        added(b.drawn.minor_units, amount.minor_units),
    ) {
        (Some(tokens), Some(minor_units)) => (tokens, minor_units),
        _ => {
            return Err(AuthorityError::Unavailable("authority balance out of range".to_owned()));
        },
    };
    let draws: u32 = b.draws.saturating_add(1);
    let receipt = Receipt {
        amount,
        remaining: Spend {
            tokens: remaining.tokens.saturating_sub(amount.tokens),
            minor_units: remaining.minor_units.saturating_sub(amount.minor_units),
        },
        draws,
    };
    book.balance.insert(
        (tenant.to_owned(), id.to_owned()),
        BalanceRow { drawn: Spend { tokens, minor_units }, draws, ..b },
    );
    book.receipts.insert(
        at,
        Receipt {
            amount: keep_spend(&receipt.amount),
            remaining: keep_spend(&receipt.remaining),
            draws,
        },
    );
    Ok(receipt)
}

/// What asking for an authority answers, given what is wrong with its terms where
/// they do not parse. One without a balance is not there.
pub open spec fn shared_state_answer(
    st: LedgerState,
    t: Seq<char>,
    id: Seq<char>,
    fault: Option<Seq<char>>,
) -> Result<Option<AuthorityModel>, Refusal> {
    if !st.terms.contains_key((t, id)) || !st.balance.contains_key((t, id)) {
        Ok(None)
    } else {
        match fault {
            Some(why) => Err(Refusal::Backend(unreadable_text(why))),
            None => Ok(standing(st, t, id)),
        }
    }
}

/// An authority: its terms, what was drawn on it, and whether it stands, given
/// what is wrong with the terms where they do not parse.
pub fn state_shared(book: &AuthorityBook, tenant: &str, id: &str, fault: &Option<String>) -> (r: Result<
    Option<AuthorityState>,
    StoreError,
>)
    ensures
        shared_state_answer(book@, tenant@, id@, said(*fault)) == match r {
            Ok(Some(s)) => Ok::<Option<AuthorityModel>, Refusal>(Some(s@)),
            Ok(None) => Ok::<Option<AuthorityModel>, Refusal>(None),
            Err(e) => Err::<Option<AuthorityModel>, Refusal>(e@),
        },
{
    if !book.balance.contains(&(tenant.to_owned(), id.to_owned())) {
        return Ok(None);
    }
    book.state(tenant, id, fault)
}

// ── Laws ────────────────────────────────────────────────────────────────────

/// A draw lands once: the same dispatch drawing again is answered with the
/// receipt that the first left, whatever the terms say by now, and nothing
/// moves. Where the columns hold its amounts, that is what the first was
/// answered.
pub proof fn law_shared_draw_lands_once(
    st: LedgerState,
    t: Seq<char>,
    id: Seq<char>,
    key: Seq<char>,
    amount: Spend,
    permits: VerdictModel,
    again: Spend,
    later: VerdictModel,
)
    requires
        !st.receipts.contains_key((t, (id, key))),
        shared_draw_answer(st, t, id, key, amount, permits) is Ok,
    ensures
        ({
            let first = shared_draw_answer(st, t, id, key, amount, permits)->Ok_0;
            let after = shared_drawn(st, t, id, key, amount, permits);
            &&& shared_draw_answer(after, t, id, key, again, later) == Ok::<
                Receipt,
                AuthorityRefusal,
            >(kept_receipt(first))
            &&& shared_drawn(after, t, id, key, again, later) == after
            &&& amount.tokens <= i64::MAX && amount.minor_units <= i64::MAX
                && first.remaining.tokens <= i64::MAX && first.remaining.minor_units <= i64::MAX
                ==> kept_receipt(first) == first
        }),
{
}

/// An authority that was issued can be drawn on and read, also where a part of
/// the pair was missing.
pub proof fn law_issuing_makes_the_pair_whole(
    st: LedgerState,
    t: Seq<char>,
    id: Seq<char>,
    terms: Seq<char>,
)
    requires
        !reissued(st, t, id, terms),
    ensures
        ({
            let after = shared_issued(st, t, id, terms);
            &&& after.terms[(t, id)] == terms
            &&& after.balance.contains_key((t, id))
            &&& shared_state_answer(after, t, id, None) == Ok::<Option<AuthorityModel>, Refusal>(
                standing(after, t, id),
            )
            &&& standing(after, t, id) is Some
        }),
{
}

/// What a draw on a shared database comes to: a draw that landed is answered with its
/// receipt; one on no authority, on one that was taken back, or that the terms refuse
/// is refused; any other is granted, as far as the columns hold what is drawn. A draw
/// that is refused changes nothing.
pub proof fn law_shared_draw_is_decided(
    st: LedgerState,
    t: Seq<char>,
    id: Seq<char>,
    key: Seq<char>,
    amount: Spend,
    permits: VerdictModel,
)
    ensures
        ({
            let answer = shared_draw_answer(st, t, id, key, amount, permits);
            let landed = st.receipts.contains_key((t, (id, key)));
            let b = st.balance[(t, id)];
            &&& landed ==> answer == Ok::<Receipt, AuthorityRefusal>(st.receipts[(t, (id, key))])
            &&& !landed && !st.terms.contains_key((t, id)) ==> answer == Err::<
                Receipt,
                AuthorityRefusal,
            >(AuthorityRefusal::Unknown(id))
            &&& !landed && st.terms.contains_key((t, id)) && st.balance.contains_key((t, id))
                && !(permits is Unreadable) ==> {
                &&& b.revoked ==> answer == Err::<Receipt, AuthorityRefusal>(
                    AuthorityRefusal::Revoked { id, reason: b.reason },
                )
                &&& !b.revoked && permits is Refused ==> answer == Err::<Receipt, AuthorityRefusal>(
                    permits->Refused_0,
                )
                &&& !b.revoked && permits is Left && b.drawn.tokens + amount.tokens <= i64::MAX
                    && b.drawn.minor_units + amount.minor_units <= i64::MAX ==> answer is Ok
            }
            &&& answer is Ok && !landed ==> st.terms.contains_key((t, id))
                && st.balance.contains_key((t, id)) && !b.revoked && permits is Left
            &&& answer is Err || landed ==> shared_drawn(st, t, id, key, amount, permits) == st
        }),
{
}

/// A draw that is granted takes its amount from what is left, once: the balance grows
/// by it and by one draw, the receipt says what remains, and no other authority and
/// no other receipt is touched.
pub proof fn law_shared_draw_takes_its_amount(
    st: LedgerState,
    t: Seq<char>,
    id: Seq<char>,
    key: Seq<char>,
    amount: Spend,
    left: Spend,
    other: AuthorityKey,
    d: DrawKey,
)
    requires
        !st.receipts.contains_key((t, (id, key))),
        shared_draw_answer(st, t, id, key, amount, VerdictModel::Left(left)) is Ok,
        amount.tokens <= left.tokens <= i64::MAX,
        amount.minor_units <= left.minor_units <= i64::MAX,
    ensures
        ({
            let receipt = shared_draw_answer(
                st,
                t,
                id,
                key,
                amount,
                VerdictModel::Left(left),
            )->Ok_0;
            let after = shared_drawn(st, t, id, key, amount, VerdictModel::Left(left));
            let was = st.balance[(t, id)];
            let now = after.balance[(t, id)];
            &&& receipt.amount == amount
            &&& receipt.remaining.tokens == left.tokens - amount.tokens
            &&& receipt.remaining.minor_units == left.minor_units - amount.minor_units
            &&& was.draws < u32::MAX ==> receipt.draws == was.draws + 1
            &&& now.draws == receipt.draws
            &&& now.drawn.tokens == was.drawn.tokens + amount.tokens
            &&& now.drawn.minor_units == was.drawn.minor_units + amount.minor_units
            &&& now.revoked == was.revoked
            &&& after.receipts.contains_key((t, (id, key)))
            &&& after.receipts[(t, (id, key))] == receipt
            &&& after.terms == st.terms
            &&& other != (t, id) ==> after.balance.contains_key(other) == st.balance.contains_key(
                other,
            )
            &&& other != (t, id) && st.balance.contains_key(other) ==> after.balance[other]
                == st.balance[other]
            &&& d != (t, (id, key)) ==> after.receipts.contains_key(d) == st.receipts.contains_key(
                d,
            )
            &&& d != (t, (id, key)) && st.receipts.contains_key(d) ==> after.receipts[d]
                == st.receipts[d]
        }),
{
}

/// What asking a shared database for an authority answers: that there is none where
/// terms or balance are missing; a refusal where its terms do not parse; and how it
/// stands otherwise.
pub proof fn law_shared_authority_is_there_once_whole(
    st: LedgerState,
    t: Seq<char>,
    id: Seq<char>,
    fault: Option<Seq<char>>,
)
    ensures
        shared_state_answer(st, t, id, fault) == Ok::<Option<AuthorityModel>, Refusal>(None)
            <==> !(st.terms.contains_key((t, id)) && st.balance.contains_key((t, id))),
        shared_state_answer(st, t, id, fault) is Err <==> st.terms.contains_key((t, id))
            && st.balance.contains_key((t, id)) && fault is Some,
        shared_state_answer(st, t, id, fault) matches Ok(Some(a)) ==> a.terms == st.terms[(t, id)]
            && a.drawn == st.balance[(t, id)].drawn && a.draws == st.balance[(t, id)].draws && (
        a.revoked is Some <==> st.balance[(t, id)].revoked),
{
}

} // verus!
