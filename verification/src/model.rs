//! Type-safe wrappers for interactions with accounts, ledgers and markets.
//!
//! An operation takes its steps in order, and the ledger may refuse a step
//! after earlier ones were done; the operation then returns the error and
//! leaves those steps in place. Callers run a request on a copy of the
//! ledger and keep the copy only for a successful response (see
//! `server::response_commits`), so a refused request leaves no trace.

use vstd::prelude::*;

use crate::decimal::{
    abs, amount_parts, amount_text, amount_text_exec, pow10, rounded_units, signum, split_amount,
};
use crate::config::{trading_open, AppConfig, Datetime, MarketConfig, MarketKind};
use crate::ledger::{
    counts, find_account, keys_unique, same_key, total, AccountRow, has_key, lemma_find_account, lemma_grows_balances, lemma_outcome_ids, lemma_grows_refl, lemma_grows_trans,
    lemma_transfer_balances, lemma_transfer_totals, market_profits, system_owner, system_owner_string, within_bounds,
    Ledger, LedgerError, TransferRow, MarketRow, lemma_outcome_ids_append_other, lemma_outcome_ids_append_own,
};
use crate::text::str_eq;
use crate::text::chars_of;
use crate::text::{
    index_of, is_digit, lemma_index_of_none, lemma_index_of_unique, lemma_nat_text, lemma_nat_text_len,
    lemma_zero_padded_nat_text, nat_text, parse_int, zero_padded,
};

verus! {

#[derive(Copy, Clone, Debug, PartialEq, Eq, Structural)]
pub struct MarketId(pub i64);

impl MarketId {
    /// Market 0 is the global "no market" for points accounts outside of a market.
    ///
    /// All accounts that hold assets are related to a market, except for an
    /// owner global points balance. We represent that as a market anyway, to
    /// make things more uniform.
    #[allow(non_snake_case)]
    pub fn NONE() -> (r: MarketId)
        ensures
            r == MarketId(0),
    {
        MarketId(0)
    }
}

#[derive(Copy, Clone, Debug)]
pub struct OutcomeId(pub i64, pub MarketId);

#[derive(Copy, Clone, Debug, PartialEq, Eq, Structural)]
pub struct AssetId(pub i64);

/// An amount of a given asset.
///
/// The integer represents a micro-increment of the asset, i.e. 10^-6.
///
/// Two amounts are equal when both the number and the asset are; amounts of
/// different assets are never equal.
#[derive(Copy, Clone, Debug, PartialEq, Eq, Structural)]
pub struct Amount(pub i64, pub AssetId);

/// Whether the text starts with a minus sign, which makes the fraction count negatively.
pub open spec fn starts_with_minus(s: Seq<char>) -> bool {
    s.len() > 0 && s[0] == '-'
}

/// The value in micro-units of decimal text such as `"1.25"` or `"-0.5"`.
///
/// The sign of the whole amount is that of the text: the fraction counts
/// negatively when the text starts with `-`, even if the integral part is `-0`.
pub open spec fn parsed_micros(s: Seq<char>) -> Option<int> {
    match amount_parts(s) {
        Some((i, f)) => Some(i * 1000000 + f * (if starts_with_minus(s) {
            -1int
        } else {
            1int
        })),
        None => None,
    }
}

/// Whether reading the text stays within `i64`: the integral part scaled to
/// micro-units, and the whole amount, both fit.
pub open spec fn parse_fits(s: Seq<char>) -> bool {
    match amount_parts(s) {
        Some((i, f)) => -9223372036854 <= i <= 9223372036854 && match parsed_micros(s) {
            Some(v) => i64::MIN <= v <= i64::MAX,
            None => true,
        },
        None => true,
    }
}

/// Whether rounding the amount to `precision` decimals stays within `i64`.
pub open spec fn rounding_fits(micros: int, precision: nat) -> bool {
    let step = pow10((6 - precision) as nat) as int;
    i64::MIN <= micros + (step / 2) * signum(micros) <= i64::MAX
}

/// Whether `s` can be read without overflow: see `parse_fits`.
pub fn parse_amount_fits(s: &str) -> (r: bool)
    ensures
        r == parse_fits(s@),
{
    match split_amount(s) {
        None => true,
        Some((i, f)) => {
            if i < -9223372036854 || i > 9223372036854 {
                return false;
            }
            let sign: i128 = if starts_with_minus_exec(s) {
                -1
            } else {
                1
            };
            let v: i128 = (i as i128) * 1000000 + f * sign;
            -9223372036854775808i128 <= v && v <= 9223372036854775807i128
        },
    }
}

fn starts_with_minus_exec(s: &str) -> (r: bool)
    ensures
        r == starts_with_minus(s@),
{
    let cs = chars_of(s);
    cs.len() > 0 && cs[0] == '-'
}

impl AssetId {
    /// The asset id for the native asset ("points").
    #[allow(non_snake_case)]
    pub fn POINTS() -> (r: AssetId)
        ensures
            r == AssetId(0),
    {
        AssetId(0)
    }

    pub fn zero(&self) -> (r: Amount)
        ensures
            r == Amount(0, *self),
    {
        Amount(0, *self)
    }

    /// Return `n` micro of the asset.
    pub fn micros(&self, n: i64) -> (r: Amount)
        ensures
            r == Amount(n, *self),
    {
        Amount(n, *self)
    }

    /// Read decimal text such as `"1.25"` as an amount of this asset.
    ///
    /// At most six decimals are accepted; the text must otherwise be what
    /// `i64::from_str` accepts on either side of a single `.`.
    pub fn parse_amount(&self, s: &str) -> (r: Option<Amount>)
        requires
            parse_fits(s@),
        ensures
            r == match parsed_micros(s@) {
                Some(v) => Some(Amount(v as i64, *self)),
                None => None::<Amount>,
            },
    {
        match split_amount(s) {
            None => None,
            Some((integral, fractional)) => {
                let sign: i128 = if starts_with_minus_exec(s) {
                    -1
                } else {
                    1
                };
                let micros = integral * 1_000_000;
                let v: i128 = (micros as i128) + fractional * sign;
                Some(Amount(v as i64, *self))
            },
        }
    }
}

/// At full precision nothing is rounded.
proof fn lemma_full_precision_units(m: int)
    ensures
        rounded_units(m, 6) == abs(m),
        pow10(6) == 1000000,
{
    reveal_with_fuel(pow10, 7);
    assert(pow10((6 - 6nat) as nat) == 1);
    assert((1int / 2) == 0);
    assert((abs(m) + 0) / 1 == abs(m));
}

/// Reading back the full-precision text of an amount gives the amount:
/// `parse_amount` undoes `to_string`, for every amount.
pub proof fn law_amount_text_reads_back(micros: i64)
    ensures
        parse_fits(amount_text(micros as int, 6)),
        parsed_micros(amount_text(micros as int, 6)) == Some(micros as int),
{
    let m = micros as int;
    lemma_full_precision_units(m);
    let u = abs(m) as nat;
    let w: nat = u / 1000000;
    let f: nat = u % 1000000;
    let sign = if m < 0 { seq!['-'] } else { Seq::<char>::empty() };
    let nt = nat_text(w);
    let it = sign + nt;
    let zp = zero_padded(nat_text(f), 6);
    let text = it + seq!['.'] + zp;
    assert(amount_text(m, 6) =~= text);
    assert(w <= 9223372036854);
    assert(pow10(6) == 1000000) by {
        reveal_with_fuel(pow10, 7);
    }
    lemma_nat_text(w);
    // The point after the integral part is the first one.
    assert(text[it.len() as int] == '.');
    assert forall|j: int| 0 <= j < it.len() implies text[j] != '.' by {
        assert(text[j] == it[j]);
        if j >= sign.len() {
            assert(it[j] == nt[j - sign.len()]);
            assert(is_digit(nt[j - sign.len()]));
        }
    }
    lemma_index_of_unique(text, '.', it.len() as int);
    assert(text.subrange(0, it.len() as int) =~= it);
    assert(text.subrange(it.len() as int + 1, text.len() as int) =~= zp);
    // The fraction is six digits without a point.
    lemma_zero_padded_nat_text(f, 6);
    lemma_nat_text_len(f, 6, 1000000);
    assert(zp.len() == 6);
    assert forall|j: int| 0 <= j < zp.len() implies zp[j] != '.' by {
        assert(is_digit(zp[j]));
    }
    lemma_index_of_none(zp, '.');
    assert(is_digit(zp[0]));
    assert(parse_int(zp) == Some(f as int));
    // The integral part reads as the whole units, negated after a minus sign.
    assert(is_digit(nt[0]));
    if m < 0 {
        assert(it.drop_first() =~= nt);
        assert(parse_int(it) == Some(-(w as int)));
    } else {
        assert(it =~= nt);
        assert(parse_int(it) == Some(w as int));
    }
    assert(index_of(text, '.') == Some(it.len() as int));
    assert(index_of(text.subrange(it.len() as int + 1, text.len() as int), '.') is None);
    assert(pow10((6 - zp.len()) as nat) == 1) by {
        reveal_with_fuel(pow10, 1);
    }
    assert(text[0] == it[0]);
    assert(starts_with_minus(text) == (m < 0));
    let i: int = if m < 0 { -(w as int) } else { w as int };
    assert(parse_int(text.subrange(0, it.len() as int)) == Some(i));
    assert(f * pow10((6 - zp.len()) as nat) == f);
    assert(amount_parts(text) == Some((i, f as int)));
    assert(u == w * 1000000 + f);
    assert(-9223372036854 <= i <= 9223372036854);
    assert(parsed_micros(text) == Some(m));
}

/// Convert an outcome to its correcponding asset.
///
/// In the database, the id for an asset is the id of the outcome, but in
/// addition to outcome assets, we have the native asset "points" with id 0.
impl From<OutcomeId> for AssetId {
    fn from(outcome_id: OutcomeId) -> (r: AssetId) {
        AssetId(outcome_id.0)
    }
}

impl vstd::std_specs::convert::FromSpecImpl<OutcomeId> for AssetId {
    open spec fn obeys_from_spec() -> bool {
        true
    }

    open spec fn from_spec(v: OutcomeId) -> AssetId {
        AssetId(v.0)
    }
}

#[derive(Copy, Clone, Debug)]
pub struct AccountId(pub i64, pub AssetId);

impl AccountId {
    /// The account id for the system's points account.
    #[allow(non_snake_case)]
    pub fn SYSTEM_POINTS() -> (r: AccountId)
        ensures
            r == AccountId(0, AssetId(0)),
    {
        AccountId(0, AssetId(0))
    }
}

impl Amount {
    /// Cast the amount to a different asset type.
    pub fn cast(&self, new_asset: AssetId) -> (r: Amount)
        ensures
            r == Amount(self.0, new_asset),
    {
        Amount(self.0, new_asset)
    }

    /// The sum of two amounts of the same asset.
    pub fn add(self, rhs: Amount) -> (r: Amount)
        requires
            self.1 == rhs.1,
            i64::MIN <= self.0 + rhs.0 <= i64::MAX,
        ensures
            r == Amount((self.0 + rhs.0) as i64, self.1),
    {
        Amount(self.0 + rhs.0, self.1)
    }

    /// The difference of two amounts of the same asset.
    pub fn sub(self, rhs: Amount) -> (r: Amount)
        requires
            self.1 == rhs.1,
            i64::MIN <= self.0 - rhs.0 <= i64::MAX,
        ensures
            r == Amount((self.0 - rhs.0) as i64, self.1),
    {
        Amount(self.0 - rhs.0, self.1)
    }

    /// The amount as decimal text with `precision` decimals, rounded half
    /// away from zero; with no decimals, there is no point either.
    pub fn fmt_precision(&self, precision: usize) -> (r: String)
        requires
            precision <= 6,
            rounding_fits(self.0 as int, precision as nat),
        ensures
            r@ == amount_text(self.0 as int, precision as nat),
    {
        amount_text_exec(self.0, precision)
    }

    /// The amount as decimal text in full precision (six decimals).
    pub fn to_string(&self) -> (r: String)
        ensures
            r@ == amount_text(self.0 as int, 6),
    {
        proof {
            reveal_with_fuel(pow10, 1);
        }
        self.fmt_precision(6)
    }
}


/// Whether `id` names an account of the ledger, with the asset it says.
pub open spec fn valid_account(tx: &Ledger, id: AccountId) -> bool {
    0 <= id.0 < tx.accounts.len() && tx.accounts@[id.0 as int].asset_id == id.1.0
}

#[derive(Copy, Clone, Debug)]
pub struct EventId(pub i64);

/// Constraints on account balance.
#[derive(Copy, Clone, Debug, PartialEq, Eq, Structural)]
pub enum AccountConstraint {
    /// Zero or positive.
    Positive,
    /// No constraints.
    Any,
    /// Zero or negative.
    Negative,
}

impl AccountConstraint {
    /// The (minimum, maximum) balance of an account with this constraint.
    pub open spec fn bounds(self) -> (Option<i64>, Option<i64>) {
        match self {
            AccountConstraint::Positive => (Some(0), None),
            AccountConstraint::Any => (None, None),
            AccountConstraint::Negative => (None, Some(0)),
        }
    }

    pub fn min_max_balance(&self) -> (r: (Option<i64>, Option<i64>))
        ensures
            r == self.bounds(),
    {
        match self {
            AccountConstraint::Positive => (Some(0), None),
            AccountConstraint::Any => (None, None),
            AccountConstraint::Negative => (None, Some(0)),
        }
    }
}

/// Create a transfer from one account to another.
///
/// Fails, changing nothing, when a balance would leave its bounds or `i64`.
pub fn create_transfer(
    tx: &mut Ledger,
    event: EventId,
    from_account: AccountId,
    to_account: AccountId,
    amount: Amount,
) -> (r: Result<(), LedgerError>)
    requires
        old(tx).wf(),
        valid_account(old(tx), from_account),
        valid_account(old(tx), to_account),
        from_account.1 == to_account.1,
        from_account.1 == amount.1,
        amount.0 > 0,
    ensures
        final(tx).wf(),
        match r {
            Ok(()) => {
                &&& old(tx).transfer_result(from_account.0 as int, to_account.0 as int, amount.0 as int)
                    == Ok::<Seq<i64>, LedgerError>(final(tx).balances@)
                &&& final(tx).accounts@ == old(tx).accounts@
                &&& final(tx).markets@ == old(tx).markets@
                &&& final(tx).outcomes@ == old(tx).outcomes@
                &&& final(tx).events@ == old(tx).events@
                &&& final(tx).profits@ == old(tx).profits@
                &&& final(tx).transfers@.drop_last() == old(tx).transfers@
                &&& final(tx).transfers@.len() == old(tx).transfers@.len() + 1
                &&& final(tx).transfers@.last().event_id == event.0
                &&& final(tx).transfers@.last().from_account == from_account.0
                &&& final(tx).transfers@.last().to_account == to_account.0
                &&& final(tx).transfers@.last().amount == amount.0
            },
            Err(e) => {
                &&& old(tx).transfer_result(from_account.0 as int, to_account.0 as int, amount.0 as int)
                    == Err::<Seq<i64>, LedgerError>(e)
                &&& *final(tx) == *old(tx)
            },
        },
{
    let r = tx.create_transfer(event.0, from_account.0, to_account.0, amount.0);
    proof {
        if r is Ok {
            assert(final(tx).transfers@.drop_last() =~= old(tx).transfers@);
        }
    }
    r
}

/// Ensure that an account exists for the given (market_id, owner_id, asset_id), return its id.
///
/// A new account starts at zero, with the bounds of `constraint`; an existing
/// account keeps its own bounds.
pub fn ensure_account(
    tx: &mut Ledger,
    market_id: MarketId,
    asset_id: AssetId,
    owner: &str,
    constraint: AccountConstraint,
) -> (r: Result<AccountId, LedgerError>)
    requires
        old(tx).wf(),
        old(tx).schema_ok(market_id.0 as int, asset_id.0 as int),
    ensures
        final(tx).wf(),
        final(tx).grows_from(old(tx)),
        final(tx).accounts.len() <= old(tx).accounts.len() + 1,
        match r {
            Ok(id) => {
                &&& id.1 == asset_id
                &&& valid_account(final(tx), id)
                &&& final(tx).account_index(market_id.0 as int, asset_id.0 as int, owner@) == Some(id.0 as int)
                &&& old(tx).account_index(market_id.0 as int, asset_id.0 as int, owner@) is Some ==> *final(tx) == *old(tx)
                &&& old(tx).account_index(market_id.0 as int, asset_id.0 as int, owner@) is None ==> {
                    &&& final(tx).accounts.len() == old(tx).accounts.len() + 1
                    &&& id.0 == old(tx).accounts.len()
                    &&& final(tx).accounts@.last().min_balance == constraint.bounds().0
                    &&& final(tx).accounts@.last().max_balance == constraint.bounds().1
                }
            },
            Err(e) => e == LedgerError::Full && *final(tx) == *old(tx),
        },
        r is Err <==> (old(tx).account_index(market_id.0 as int, asset_id.0 as int, owner@) is None
            && old(tx).accounts.len() == i64::MAX),
{
    let (min, max) = constraint.min_max_balance();
    let id = match tx.get_account_id(market_id.0, asset_id.0, owner) {
        Some(id) => {
            proof {
                lemma_grows_refl(tx);
            }
            id
        },
        None => {
            let id = match tx.create_account(market_id.0, asset_id.0, owner, min, max) {
                Ok(id) => id,
                Err(e) => {
                    proof {
                        lemma_grows_refl(tx);
                    }
                    return Err(e);
                },
            };
            proof {
                lemma_find_account(tx.accounts@, market_id.0 as int, asset_id.0 as int, owner@, id as int);
                assert(tx.accounts@.subrange(0, old(tx).accounts.len() as int) =~= old(tx).accounts@);
                assert(tx.balances@.subrange(0, old(tx).accounts.len() as int) =~= old(tx).balances@);
            }
            id
        },
    };
    Ok(AccountId(id, asset_id))
}

/// Ensure that a user has a global points account, fund it with the opening balance if needed, return id.
///
/// A new account gets the opening balance from the system's points account,
/// in a "Sign-on bonus" event of the system.
pub fn ensure_points_account(tx: &mut Ledger, config: &AppConfig, owner: &str) -> (r: Result<AccountId, LedgerError>)
    requires
        old(tx).wf(),
        old(tx).account_index(0, 0, owner@) is None ==> config.opening_balance_micros > 0,
    ensures
        final(tx).wf(),
        match r {
            Ok(id) => {
                &&& id.1 == AssetId(0)
                &&& valid_account(final(tx), id)
                &&& final(tx).account_index(0, 0, owner@) == Some(id.0 as int)
                &&& old(tx).account_index(0, 0, owner@) is Some ==> *final(tx) == *old(tx)
                &&& old(tx).account_index(0, 0, owner@) is None ==> {
                    &&& final(tx).balance_of(0, 0, owner@) == config.opening_balance_micros
                    &&& final(tx).balance_of(0, 0, system_owner()) == old(tx).balance_of(0, 0, system_owner()) - config.opening_balance_micros
                    &&& forall|m: int, a: int, o: Seq<char>| !(m == 0 && a == 0 && (o == owner@ || o == system_owner()))
                        ==> #[trigger] final(tx).balance_of(m, a, o) == old(tx).balance_of(m, a, o)
                    &&& final(tx).accounts@.last().min_balance == Some(0i64)
                    &&& final(tx).accounts@.last().max_balance is None
                    &&& final(tx).events@.last().owner@ == system_owner()
                    &&& final(tx).events@.last().description@ == "Sign-on bonus"@
                    &&& final(tx).transfers@ == old(tx).transfers@.push(final(tx).transfers@.last())
                    &&& transfer_row_is(final(tx), final(tx).transfers@.last(), old(tx).events.len() as int, 0,
                        system_owner(), 0, owner@, Amount(config.opening_balance_micros, AssetId(0)))
                }
            },
            Err(e) => e == LedgerError::Full || e == LedgerError::Overflow,
        },
        r is Err <==> old(tx).account_index(0, 0, owner@) is None && (old(tx).accounts.len() == i64::MAX
            || old(tx).events.len() == i64::MAX
            || old(tx).balances@[0] - config.opening_balance_micros < i64::MIN),
{
    let market_id = MarketId::NONE();
    let asset_id = AssetId::POINTS();
    let id = match tx.get_account_id(market_id.0, asset_id.0, owner) {
        Some(id) => id,
        None => {
            let (min, max) = AccountConstraint::Positive.min_max_balance();
            let ghost t0 = *tx;
            let new_id = tx.create_account(market_id.0, asset_id.0, owner, min, max)?;
            let to_account = AccountId(new_id, asset_id);
            let from_account = AccountId::SYSTEM_POINTS();
            let system = system_owner_string();
            let ghost t1 = *tx;
            let event = EventId(tx.create_event(system.as_str(), "Sign-on bonus")?);
            let amount = Amount(config.opening_balance_micros, asset_id);
            let ghost t2 = *tx;
            proof {
                lemma_find_account(t1.accounts@, 0, 0, owner@, new_id as int);
                lemma_find_account(t1.accounts@, 0, 0, system_owner(), 0);
                assert(t1.accounts@.subrange(0, t0.accounts.len() as int) =~= t0.accounts@);
                assert(t1.balances@.subrange(0, t0.accounts.len() as int) =~= t0.balances@);
                lemma_grows_balances(&t1, &t0);
                assert(t1.accounts@[0] == t0.accounts@[0]);
            }
            create_transfer(tx, event, from_account, to_account, amount)?;
            proof {
                lemma_transfer_balances(tx, &t2, 0, new_id as int, (t2.balances@[0] - amount.0) as i64, (0 + amount.0) as i64);
                assert forall|m: int, a: int, o: Seq<char>| !(m == 0 && a == 0 && (o == owner@ || o == system_owner()))
                    implies #[trigger] tx.balance_of(m, a, o) == t0.balance_of(m, a, o) by {
                    assert(t1.balance_of(m, a, o) == t0.balance_of(m, a, o));
                    assert(t2.balance_of(m, a, o) == t1.balance_of(m, a, o));
                }
                assert(tx.balance_of(0, 0, owner@) == config.opening_balance_micros);
                assert(t1.balance_of(0, 0, system_owner()) == t0.balance_of(0, 0, system_owner()));
                lemma_find_account(tx.accounts@, 0, 0, system_owner(), 0);
                lemma_find_account(tx.accounts@, 0, 0, owner@, new_id as int);
                assert(tx.transfers@ =~= t0.transfers@.push(tx.transfers@.last()));
            }
            new_id
        },
    };
    Ok(AccountId(id, asset_id))
}

/// The balance of an account, as an amount of its asset.
pub fn get_account_balance(tx: &Ledger, account_id: AccountId) -> (r: Result<Amount, LedgerError>)
    requires
        tx.wf(),
        valid_account(tx, account_id),
    ensures
        r == Ok::<Amount, LedgerError>(Amount(tx.balances@[account_id.0 as int], account_id.1)),
{
    let amount = tx.get_account_balance(account_id.0);
    Ok(Amount(amount, account_id.1))
}


/// The bounds an account with this key has, or would get with `constraint`.
pub open spec fn bounds_for(
    tx: &Ledger,
    market: int,
    asset: int,
    owner: Seq<char>,
    constraint: AccountConstraint,
) -> (Option<i64>, Option<i64>) {
    match tx.account_index(market, asset, owner) {
        Some(i) => (tx.accounts@[i].min_balance, tx.accounts@[i].max_balance),
        None => constraint.bounds(),
    }
}

/// Whether the balance of the account with this key may change by `delta`:
/// the new balance fits in an `i64` and lies within the account's bounds.
pub open spec fn change_allowed(
    tx: &Ledger,
    market: int,
    asset: int,
    owner: Seq<char>,
    constraint: AccountConstraint,
    delta: int,
) -> bool {
    let v = tx.balance_of(market, asset, owner) + delta;
    &&& i64::MIN <= v <= i64::MAX
    &&& within_bounds(
        bounds_for(tx, market, asset, owner, constraint).0,
        bounds_for(tx, market, asset, owner, constraint).1,
        v,
    )
}

/// `new` is `old` with accounts added only for the two given keys.
pub open spec fn adds_only(
    new: &Ledger,
    old: &Ledger,
    m1: int,
    a1: int,
    o1: Seq<char>,
    m2: int,
    a2: int,
    o2: Seq<char>,
) -> bool {
    &&& old.accounts.len() <= new.accounts.len()
    &&& new.accounts@.subrange(0, old.accounts.len() as int) == old.accounts@
    &&& forall|j: int|
        old.accounts.len() <= j < new.accounts.len() ==> has_key(#[trigger] new.accounts@[j], m1, a1, o1)
            || has_key(new.accounts@[j], m2, a2, o2)
}

/// The transfer row moves `amount` under event `e`, from the account of
/// (`fm`, the amount's asset, `from`) to that of (`tm`, the asset, `to`).
pub open spec fn transfer_row_is(
    tx: &Ledger,
    row: TransferRow,
    e: int,
    fm: int,
    from: Seq<char>,
    tm: int,
    to: Seq<char>,
    amount: Amount,
) -> bool {
    &&& row.event_id == e
    &&& tx.account_index(fm, amount.1.0 as int, from) == Some(row.from_account as int)
    &&& tx.account_index(tm, amount.1.0 as int, to) == Some(row.to_account as int)
    &&& row.amount == amount.0
}

/// A key found among the first accounts is found at the same place once
/// more accounts are added.
proof fn lemma_index_stable(new: &Ledger, old: &Ledger, m: int, a: int, o: Seq<char>)
    requires
        new.wf(),
        old.accounts.len() <= new.accounts.len(),
        new.accounts@.subrange(0, old.accounts.len() as int) == old.accounts@,
        old.account_index(m, a, o) is Some,
    ensures
        new.account_index(m, a, o) == old.account_index(m, a, o),
{
    let i = old.account_index(m, a, o)->0;
    assert(has_key(old.accounts@[i], m, a, o));
    assert(new.accounts@[i] == new.accounts@.subrange(0, old.accounts.len() as int)[i]);
    lemma_find_account(new.accounts@, m, a, o, i);
}

/// Transfer rows keep naming the same accounts once more accounts are added.
proof fn lemma_rows_stable(new: &Ledger, old: &Ledger)
    requires
        new.wf(),
        old.accounts.len() <= new.accounts.len(),
        new.accounts@.subrange(0, old.accounts.len() as int) == old.accounts@,
    ensures
        forall|row: TransferRow, e: int, fm: int, from: Seq<char>, tm: int, to: Seq<char>, amount: Amount|
            #[trigger] transfer_row_is(old, row, e, fm, from, tm, to, amount) ==> transfer_row_is(
                new,
                row,
                e,
                fm,
                from,
                tm,
                to,
                amount,
            ),
{
    assert forall|row: TransferRow, e: int, fm: int, from: Seq<char>, tm: int, to: Seq<char>, amount: Amount|
        #[trigger] transfer_row_is(old, row, e, fm, from, tm, to, amount) implies transfer_row_is(
        new,
        row,
        e,
        fm,
        from,
        tm,
        to,
        amount,
    ) by {
        lemma_index_stable(new, old, fm, amount.1.0 as int, from);
        lemma_index_stable(new, old, tm, amount.1.0 as int, to);
    }
}

/// Moves `amount` from the account of one owner to that of another,
/// opening either account first if needed, with the given constraint.
fn transfer_between(
    tx: &mut Ledger,
    event: EventId,
    from_market: MarketId,
    from_owner: &str,
    from_constraint: AccountConstraint,
    to_market: MarketId,
    to_owner: &str,
    to_constraint: AccountConstraint,
    amount: Amount,
) -> (r: Result<(), LedgerError>)
    requires
        old(tx).wf(),
        old(tx).schema_ok(from_market.0 as int, amount.1.0 as int),
        old(tx).schema_ok(to_market.0 as int, amount.1.0 as int),
        !(from_market.0 == to_market.0 && from_owner@ == to_owner@),
        amount.0 > 0,
    ensures
        final(tx).wf(),
        final(tx).markets@ == old(tx).markets@,
        final(tx).outcomes@ == old(tx).outcomes@,
        final(tx).events@ == old(tx).events@,
        final(tx).profits@ == old(tx).profits@,
        final(tx).accounts.len() <= old(tx).accounts.len() + 2,
        adds_only(
            final(tx),
            old(tx),
            from_market.0 as int,
            amount.1.0 as int,
            from_owner@,
            to_market.0 as int,
            amount.1.0 as int,
            to_owner@,
        ),
        r is Ok ==> forall|m: int, a: int, o: Seq<char>| #[trigger] final(tx).balance_of(m, a, o) == old(tx).balance_of(m, a, o)
            - (if m == from_market.0 && a == amount.1.0 && o == from_owner@ { amount.0 as int } else { 0 })
            + (if m == to_market.0 && a == amount.1.0 && o == to_owner@ { amount.0 as int } else { 0 }),
        r is Ok ==> forall|m: int, a: int| #[trigger] final(tx).market_total(m, a) == old(tx).market_total(m, a)
            - (if m == from_market.0 && a == amount.1.0 { amount.0 as int } else { 0 })
            + (if m == to_market.0 && a == amount.1.0 { amount.0 as int } else { 0 }),
        old(tx).accounts.len() + 2 <= i64::MAX ==> (r is Ok <==> (
            change_allowed(old(tx), from_market.0 as int, amount.1.0 as int, from_owner@, from_constraint, -amount.0)
            && change_allowed(old(tx), to_market.0 as int, amount.1.0 as int, to_owner@, to_constraint, amount.0 as int))),
        forall|j: int| old(tx).accounts.len() <= j < final(tx).accounts.len() ==> {
            ||| has_key(#[trigger] final(tx).accounts@[j], from_market.0 as int, amount.1.0 as int, from_owner@)
                && (final(tx).accounts@[j].min_balance, final(tx).accounts@[j].max_balance) == from_constraint.bounds()
            ||| has_key(final(tx).accounts@[j], to_market.0 as int, amount.1.0 as int, to_owner@)
                && (final(tx).accounts@[j].min_balance, final(tx).accounts@[j].max_balance) == to_constraint.bounds()
        },
        r is Ok ==> {
            &&& final(tx).transfers@.drop_last() == old(tx).transfers@
            &&& final(tx).transfers@.len() == old(tx).transfers@.len() + 1
            &&& final(tx).transfers@.last().event_id == event.0
            &&& final(tx).account_index(from_market.0 as int, amount.1.0 as int, from_owner@)
                == Some(final(tx).transfers@.last().from_account as int)
            &&& final(tx).account_index(to_market.0 as int, amount.1.0 as int, to_owner@)
                == Some(final(tx).transfers@.last().to_account as int)
            &&& final(tx).transfers@.last().amount == amount.0
        },
        r is Err ==> final(tx).transfers@ == old(tx).transfers@,
        r is Err ==> forall|m: int, a: int, o: Seq<char>| #[trigger] final(tx).balance_of(m, a, o) == old(tx).balance_of(m, a, o),
{
    let ghost t0 = *tx;
    let acc_from = match ensure_account(tx, from_market, amount.1, from_owner, from_constraint) {
        Ok(a) => a,
        Err(e) => {
            proof {
                assert(tx.accounts@.subrange(0, t0.accounts.len() as int) =~= t0.accounts@);
            }
            return Err(e);
        },
    };
    let ghost t1 = *tx;
    let acc_to = match ensure_account(tx, to_market, amount.1, to_owner, to_constraint) {
        Ok(a) => a,
        Err(e) => {
            proof {
                lemma_grows_balances(&t1, &t0);
                assert(t1.accounts@.subrange(0, t0.accounts.len() as int) =~= t0.accounts@);
                assert forall|j: int| t0.accounts.len() <= j < tx.accounts.len() implies has_key(#[trigger] tx.accounts@[j], from_market.0 as int, amount.1.0 as int, from_owner@)
                    || has_key(tx.accounts@[j], to_market.0 as int, amount.1.0 as int, to_owner@) by {
                    lemma_find_account(t1.accounts@, from_market.0 as int, amount.1.0 as int, from_owner@, acc_from.0 as int);
                }
                assert forall|j: int| t0.accounts.len() <= j < tx.accounts.len() implies has_key(#[trigger] tx.accounts@[j], from_market.0 as int, amount.1.0 as int, from_owner@)
                    && (tx.accounts@[j].min_balance, tx.accounts@[j].max_balance) == from_constraint.bounds() by {
                    lemma_find_account(t1.accounts@, from_market.0 as int, amount.1.0 as int, from_owner@, acc_from.0 as int);
                }
            }
            return Err(e);
        },
    };
    let ghost t2 = *tx;
    proof {
        lemma_grows_trans(&t0, &t1, &t2);
        lemma_grows_balances(&t1, &t0);
        lemma_grows_balances(&t2, &t1);
        lemma_grows_balances(&t2, &t0);
        // Both accounts sit where the keys are found, before or after growing.
        assert(t2.account_index(from_market.0 as int, amount.1.0 as int, from_owner@) == Some(acc_from.0 as int));
        assert(acc_from.0 != acc_to.0);
        let fm = from_market.0 as int;
        let tm = to_market.0 as int;
        let a = amount.1.0 as int;
        assert(t2.accounts@.subrange(0, t0.accounts.len() as int) =~= t0.accounts@);
        assert forall|j: int| t0.accounts.len() <= j < t2.accounts.len() implies has_key(#[trigger] t2.accounts@[j], fm, a, from_owner@)
            || has_key(t2.accounts@[j], tm, a, to_owner@) by {
            if j < t1.accounts.len() {
                assert(t2.accounts@[j] == t2.accounts@.subrange(0, t1.accounts.len() as int)[j]);
                assert(j == acc_from.0);
                assert(has_key(t1.accounts@[j], fm, a, from_owner@));
            } else {
                assert(j == acc_to.0);
                assert(has_key(t2.accounts@[j], tm, a, to_owner@));
            }
        }
        // The bounds of the two accounts are those the keys had, or got.
        match t0.account_index(fm, a, from_owner@) {
            Some(i) => {
                assert(t2.accounts@[i] == t2.accounts@.subrange(0, t0.accounts.len() as int)[i]);
            },
            None => {},
        }
        match t0.account_index(tm, a, to_owner@) {
            Some(i) => {
                assert(t2.accounts@[i] == t2.accounts@.subrange(0, t0.accounts.len() as int)[i]);
            },
            None => {
                match t1.account_index(tm, a, to_owner@) {
                    Some(i) => {
                        assert(has_key(t1.accounts@[i], tm, a, to_owner@));
                        assert(i == t1.accounts.len() - 1);
                        assert(has_key(t1.accounts@[i], fm, a, from_owner@));
                        assert(false);
                    },
                    None => {},
                }
            },
        }
    }
    proof {
        let fm = from_market.0 as int;
        let tm = to_market.0 as int;
        let a = amount.1.0 as int;
        assert forall|j: int| t0.accounts.len() <= j < t2.accounts.len() implies {
            ||| has_key(#[trigger] t2.accounts@[j], fm, a, from_owner@)
                && (t2.accounts@[j].min_balance, t2.accounts@[j].max_balance) == from_constraint.bounds()
            ||| has_key(t2.accounts@[j], tm, a, to_owner@)
                && (t2.accounts@[j].min_balance, t2.accounts@[j].max_balance) == to_constraint.bounds()
        } by {
            if j < t1.accounts.len() {
                assert(t2.accounts@[j] == t2.accounts@.subrange(0, t1.accounts.len() as int)[j]);
                assert(j == acc_from.0);
            } else {
                assert(j == acc_to.0);
            }
        }
    }
    let r = create_transfer(tx, event, acc_from, acc_to, amount);
    proof {
        if r is Ok {
            let nf = t2.balances@[acc_from.0 as int] - amount.0;
            let nt = t2.balances@[acc_to.0 as int] + amount.0;
            lemma_transfer_balances(tx, &t2, acc_from.0 as int, acc_to.0 as int, nf as i64, nt as i64);
            lemma_transfer_totals(tx, &t2, acc_from.0 as int, acc_to.0 as int, amount.0 as int);
            assert forall|m: int, a: int| #[trigger] tx.market_total(m, a) == t0.market_total(m, a)
                - (if m == from_market.0 && a == amount.1.0 { amount.0 as int } else { 0 })
                + (if m == to_market.0 && a == amount.1.0 { amount.0 as int } else { 0 }) by {
                assert(t2.market_total(m, a) == t0.market_total(m, a));
                assert(tx.market_total(m, a) == total(tx.accounts@, tx.balances@, Some(m), a));
            }
        }
    }
    r
}


#[derive(Clone, Debug)]
pub struct Outcome {
    pub id: OutcomeId,
    pub value: String,
}

/// The balances of accounts related to a market for a given owner.
///
/// The owner can be a user, or it can be the system.
#[derive(Clone, Debug)]
pub struct Balance {
    /// For every outcome in the market, in the same order, the balance.
    pub outcomes: Vec<Amount>,
    /// Balance of the points account.
    pub points: Amount,
}

#[derive(Clone, Debug)]
pub struct RealizedProfit {
    pub owner: String,
    pub amount_in: Amount,
    pub amount_out: Amount,
}

#[derive(Clone, Debug)]
pub struct Market {
    pub id: MarketId,
    pub slug: String,
    pub title: String,
    pub description: String,
    pub kind: MarketKind,
    /// When trading opens; absent when the market opens at creation.
    pub opens_at: Option<Datetime>,
    /// When trading closes; absent when the market has no close date.
    pub closes_at: Option<Datetime>,
    pub outcomes: Vec<Outcome>,
    /// For every owner, their balance for this market; no owner appears twice.
    pub balances: Vec<(String, Balance)>,
    /// For resolved markets, the realized profits per participant.
    pub profits: Vec<RealizedProfit>,
}

impl Market {
    /// The ids of the market's outcomes, in order.
    pub open spec fn outcome_ids(&self) -> Seq<int> {
        self.outcomes@.map_values(|o: Outcome| o.id.0 as int)
    }

    /// The market exists in the ledger, and its outcomes are exactly the
    /// ledger's outcomes of that market, in the same order.
    pub open spec fn outcomes_match(&self, tx: &Ledger) -> bool {
        &&& 1 <= self.id.0 <= tx.markets.len()
        &&& self.outcome_ids() == tx.outcome_ids(self.id.0 as int)
        &&& forall|k: int| 0 <= k < self.outcomes.len() ==> (#[trigger] self.outcomes@[k]).id.1 == self.id
    }
}

/// Whether a deposit into market `m`, whose outcomes are `ids`, involves the key.
pub open spec fn deposit_touches(
    m: int,
    ids: Seq<int>,
    owner: Seq<char>,
    km: int,
    ka: int,
    ko: Seq<char>,
) -> bool {
    ||| (km == 0 && ka == 0 && ko == owner)
    ||| (km == m && ka == 0 && ko == owner)
    ||| (km == 0 && ids.contains(ka) && ko == system_owner())
    ||| (km == m && ids.contains(ka) && ko == owner)
}

/// How a deposit of `amount` by `owner` into market `m`, whose outcomes are
/// `ids`, changes the balance of a key: the owner's global points go down and
/// the owner's points in the market go up by `amount`; for every outcome the
/// system mints `amount` shares from its global account into the owner's.
pub open spec fn deposit_delta(
    m: int,
    ids: Seq<int>,
    amount: int,
    owner: Seq<char>,
    km: int,
    ka: int,
    ko: Seq<char>,
) -> int {
    (if km == 0 && ka == 0 && ko == owner {
        -amount
    } else {
        0
    }) + (if km == m && ka == 0 && ko == owner {
        amount
    } else {
        0
    }) + (if km == 0 && ids.contains(ka) && ko == system_owner() {
        -amount
    } else {
        0
    }) + (if km == m && ids.contains(ka) && ko == owner {
        amount
    } else {
        0
    })
}

/// The balance changes of a deposit are all allowed by the accounts' bounds.
pub open spec fn deposit_allowed(tx: &Ledger, m: int, ids: Seq<int>, amount: int, owner: Seq<char>) -> bool {
    &&& change_allowed(tx, 0, 0, owner, AccountConstraint::Positive, -amount)
    &&& change_allowed(tx, m, 0, owner, AccountConstraint::Positive, amount)
    &&& forall|k: int| 0 <= k < ids.len() ==> {
        &&& change_allowed(tx, 0, #[trigger] ids[k], system_owner(), AccountConstraint::Negative, -amount)
        &&& change_allowed(tx, m, ids[k], owner, AccountConstraint::Positive, amount)
    }
}


proof fn lemma_take_contains(s: Seq<int>, i: int)
    requires
        0 <= i < s.len(),
    ensures
        forall|x: int| #[trigger] s.take(i + 1).contains(x) <==> (s.take(i).contains(x) || x == s[i]),
{
    assert forall|x: int| #[trigger] s.take(i + 1).contains(x) <==> (s.take(i).contains(x) || x == s[i]) by {
        if s.take(i + 1).contains(x) {
            let k = choose|k: int| 0 <= k < i + 1 && #[trigger] s.take(i + 1)[k] == x;
            if k < i {
                assert(s.take(i)[k] == x);
            }
        }
        if s.take(i).contains(x) {
            let k = choose|k: int| 0 <= k < i && #[trigger] s.take(i)[k] == x;
            assert(s.take(i + 1)[k] == x);
        }
        if x == s[i] {
            assert(s.take(i + 1)[i] == x);
        }
    }
}

/// A key that no account added since `base` has keeps its bounds and balance.
proof fn lemma_untouched_key(
    cur: &Ledger,
    base: &Ledger,
    km: int,
    ka: int,
    ko: Seq<char>,
    c: AccountConstraint,
)
    requires
        cur.wf(),
        base.wf(),
        base.accounts.len() <= cur.accounts.len(),
        cur.accounts@.subrange(0, base.accounts.len() as int) == base.accounts@,
        forall|j: int| base.accounts.len() <= j < cur.accounts.len() ==> !has_key(#[trigger] cur.accounts@[j], km, ka, ko),
    ensures
        bounds_for(cur, km, ka, ko, c) == bounds_for(base, km, ka, ko, c),
        cur.account_index(km, ka, ko) == base.account_index(km, ka, ko),
{
    match base.account_index(km, ka, ko) {
        Some(i) => {
            assert(cur.accounts@[i] == cur.accounts@.subrange(0, base.accounts.len() as int)[i]);
            lemma_find_account(cur.accounts@, km, ka, ko, i);
        },
        None => {
            match cur.account_index(km, ka, ko) {
                Some(j) => {
                    if j < base.accounts.len() {
                        assert(cur.accounts@[j] == cur.accounts@.subrange(0, base.accounts.len() as int)[j]);
                        assert(has_key(base.accounts@[j], km, ka, ko));
                    }
                },
                None => {},
            }
        },
    }
}


/// How a deposit into market `m`, whose outcomes are `ids`, changes the total
/// of `asset` in market `mm`.
pub open spec fn deposit_total_delta(m: int, ids: Seq<int>, amount: int, mm: int, asset: int) -> int {
    (if mm == 0 && asset == 0 {
        -amount
    } else {
        0
    }) + (if mm == m && asset == 0 {
        amount
    } else {
        0
    }) + (if mm == 0 && ids.contains(asset) {
        -amount
    } else {
        0
    }) + (if mm == m && ids.contains(asset) {
        amount
    } else {
        0
    })
}

/// A deposit that raises the points and every outcome of its market alike
/// keeps every balanced market balanced.
proof fn lemma_deposit_keeps_balance(old: &Ledger, new: &Ledger, m: int, ids: Seq<int>, amount: int)
    requires
        old.wf(),
        new.wf(),
        1 <= m,
        new.outcomes@ == old.outcomes@,
        ids == old.outcome_ids(m),
        forall|mm: int, a: int| #[trigger] new.market_total(mm, a) == old.market_total(mm, a)
            + deposit_total_delta(m, ids, amount, mm, a),
    ensures
        forall|mm: int| #[trigger] old.market_balanced(mm) ==> new.market_balanced(mm),
{
    assert forall|mm: int| #[trigger] old.market_balanced(mm) implies new.market_balanced(mm) by {
        lemma_outcome_ids(old.outcomes@, mm);
        assert forall|k: int| 0 <= k < new.outcome_ids(mm).len() implies new.market_total(mm, #[trigger] new.outcome_ids(mm)[k])
            == new.market_total(mm, 0) by {
            let x = old.outcome_ids(mm)[k];
            assert(old.outcome_ids(mm).contains(x));
            assert(x >= 1);
            if mm == 0 {
                assert(old.outcomes@[x - 1].market_id >= 1);
            }
            if mm == m {
                assert(ids.contains(x));
            } else {
                lemma_outcome_ids(old.outcomes@, m);
                assert(!ids.contains(x));
            }
            assert(old.market_total(mm, x) == old.market_total(mm, 0));
        }
    }
}

/// Deposit `amount` points of `owner` into a market.
///
/// The points move from the owner's global points account into the owner's
/// points account of the market, and for every outcome of the market the
/// system mints `amount` shares into the owner's account of that outcome.
/// All of it happens in one "Deposit" event of the owner.
///
/// Given room for the event and the accounts, the deposit succeeds exactly
/// when every balance change stays within its account's bounds and `i64`;
/// in particular the owner needs at least `amount` liquid points.
pub fn create_deposit(tx: &mut Ledger, market: &Market, amount: Amount, owner: &str) -> (r: Result<(), LedgerError>)
    requires
        old(tx).wf(),
        market.outcomes_match(old(tx)),
        amount.1 == AssetId(0),
        amount.0 > 0,
    ensures
        final(tx).wf(),
        final(tx).markets@ == old(tx).markets@,
        final(tx).outcomes@ == old(tx).outcomes@,
        final(tx).profits@ == old(tx).profits@,
        r is Ok ==> {
            &&& final(tx).events@.drop_last() == old(tx).events@
            &&& final(tx).events@.len() == old(tx).events@.len() + 1
            &&& final(tx).events@.last().owner@ == owner@
            &&& final(tx).events@.last().description@ == "Deposit"@
            &&& final(tx).accounts.len() <= old(tx).accounts.len() + 2 + 2 * market.outcomes.len()
            &&& old(tx).accounts.len() <= final(tx).accounts.len()
            &&& final(tx).accounts@.subrange(0, old(tx).accounts.len() as int) == old(tx).accounts@
            &&& forall|j: int| old(tx).accounts.len() <= j < final(tx).accounts.len() ==> (#[trigger] final(tx).accounts@[j]).market_id
                == 0 || (final(tx).accounts@[j].min_balance == Some(0i64) && final(tx).accounts@[j].max_balance is None)
            &&& final(tx).transfers@.len() == old(tx).transfers@.len() + 1 + market.outcomes.len()
            &&& final(tx).transfers@.subrange(0, old(tx).transfers.len() as int) == old(tx).transfers@
            &&& transfer_row_is(final(tx), final(tx).transfers@[old(tx).transfers.len() as int], old(tx).events.len() as int,
                0, owner@, market.id.0 as int, owner@, amount)
            &&& forall|k: int| 0 <= k < market.outcomes.len() ==> transfer_row_is(final(tx),
                #[trigger] final(tx).transfers@[old(tx).transfers.len() + 1 + k], old(tx).events.len() as int,
                0, system_owner(), market.id.0 as int, owner@, Amount(amount.0, AssetId(market.outcome_ids()[k] as i64)))
            &&& forall|m: int, a: int, o: Seq<char>| #[trigger] final(tx).balance_of(m, a, o)
                == old(tx).balance_of(m, a, o) + deposit_delta(
                market.id.0 as int,
                market.outcome_ids(),
                amount.0 as int,
                owner@,
                m,
                a,
                o,
            )
            &&& forall|m: int| #[trigger] old(tx).market_balanced(m) ==> final(tx).market_balanced(m)
        },
        old(tx).events.len() < i64::MAX && old(tx).accounts.len() + 2 + 2 * market.outcomes.len() <= i64::MAX
            ==> (r is Ok <==> deposit_allowed(old(tx), market.id.0 as int, market.outcome_ids(), amount.0 as int, owner@)),
{
    let ghost ids = market.outcome_ids();
    let ghost m = market.id.0 as int;
    let ghost amt = amount.0 as int;
    let ghost n = market.outcomes.len() as int;
    let ghost room = old(tx).events.len() < i64::MAX && old(tx).accounts.len() + 2 + 2 * n <= i64::MAX;
    let event = EventId(tx.create_event(owner, "Deposit")?);
    let ghost base = *tx;
    proof {
        lemma_outcome_ids(tx.outcomes@, m);
        assert forall|k: int| 0 <= k < ids.len() implies 1 <= #[trigger] ids[k] <= tx.outcomes.len()
            && tx.outcomes@[ids[k] - 1].market_id == m by {
            assert(ids[k] == tx.outcome_ids(m)[k]);
        }
        assert forall|k1: int, k2: int| 0 <= k1 < k2 < ids.len() implies #[trigger] ids[k1] < #[trigger] ids[k2] by {
            assert(ids[k1] == tx.outcome_ids(m)[k1]);
            assert(ids[k2] == tx.outcome_ids(m)[k2]);
        }
        assert(base.balance_of(0, 0, owner@) == old(tx).balance_of(0, 0, owner@));
    }
    let system = system_owner_string();
    // Move the points from the user's global account, into the user's point
    // account for this market.
    let pos = AccountConstraint::Positive;
    let neg = AccountConstraint::Negative;
    let ghost t0 = *tx;
    transfer_between(tx, event, MarketId::NONE(), owner, pos, market.id, owner, pos, amount)?;
    let ghost t1 = *tx;
    proof {
        assert(tx.transfers@.subrange(0, old(tx).transfers.len() as int) =~= old(tx).transfers@);
        assert(tx.transfers@[old(tx).transfers.len() as int] == tx.transfers@.last());
        assert(ids.take(0) =~= Seq::<int>::empty());
        assert forall|km: int, ka: int, ko: Seq<char>| #[trigger] tx.balance_of(km, ka, ko) == base.balance_of(km, ka, ko)
            + deposit_delta(m, ids.take(0), amt, owner@, km, ka, ko) by {}
        assert forall|j: int| base.accounts.len() <= j < tx.accounts.len() implies deposit_touches(
            m, ids.take(0), owner@, (#[trigger] tx.accounts@[j]).market_id as int, tx.accounts@[j].asset_id as int, tx.accounts@[j].owner@) by {}
        assert forall|mm: int, a: int| #[trigger] tx.market_total(mm, a) == base.market_total(mm, a)
            + deposit_total_delta(m, ids.take(0), amt, mm, a) by {}
    }
    // Mint the outcome shares equal to the deposited amount for every outcome.
    let mut i: usize = 0;
    while i < market.outcomes.len()
        invariant
            tx.wf(),
            base.wf(),
            market.outcomes_match(&base),
            ids == market.outcome_ids(),
            m == market.id.0,
            n == market.outcomes.len(),
            amt == amount.0,
            amount.1 == AssetId(0),
            amount.0 > 0,
            event.0 == base.events.len() - 1,
            system@ == system_owner(),
            pos == AccountConstraint::Positive,
            neg == AccountConstraint::Negative,
            forall|k: int| 0 <= k < ids.len() ==> 1 <= #[trigger] ids[k] <= base.outcomes.len()
                && base.outcomes@[ids[k] - 1].market_id == m,
            forall|k1: int, k2: int| 0 <= k1 < k2 < ids.len() ==> #[trigger] ids[k1] < #[trigger] ids[k2],
            0 <= i <= n,
            tx.markets@ == base.markets@,
            tx.outcomes@ == base.outcomes@,
            tx.events@ == base.events@,
            tx.profits@ == base.profits@,
            base.accounts.len() <= tx.accounts.len() <= base.accounts.len() + 2 + 2 * i,
            tx.accounts@.subrange(0, base.accounts.len() as int) == base.accounts@,
            forall|j: int| base.accounts.len() <= j < tx.accounts.len() ==> deposit_touches(
                m, ids.take(i as int), owner@, (#[trigger] tx.accounts@[j]).market_id as int, tx.accounts@[j].asset_id as int, tx.accounts@[j].owner@),
            forall|km: int, ka: int, ko: Seq<char>| #[trigger] tx.balance_of(km, ka, ko) == base.balance_of(km, ka, ko)
                + deposit_delta(m, ids.take(i as int), amt, owner@, km, ka, ko),
            forall|mm: int, a: int| #[trigger] tx.market_total(mm, a) == base.market_total(mm, a)
                + deposit_total_delta(m, ids.take(i as int), amt, mm, a),
            base.markets@ == old(tx).markets@,
            base.outcomes@ == old(tx).outcomes@,
            base.profits@ == old(tx).profits@,
            base.accounts@ == old(tx).accounts@,
            base.balances@ == old(tx).balances@,
            base.events@.drop_last() == old(tx).events@,
            base.events@.len() == old(tx).events@.len() + 1,
            base.events@.last().owner@ == owner@,
            base.events@.last().description@ == "Deposit"@,
            room == (old(tx).events.len() < i64::MAX && old(tx).accounts.len() + 2 + 2 * n <= i64::MAX),
            room ==> change_allowed(&base, 0, 0, owner@, AccountConstraint::Positive, -amt),
            room ==> change_allowed(&base, m, 0, owner@, AccountConstraint::Positive, amt),
            room ==> forall|k: int| 0 <= k < i ==> {
                &&& change_allowed(&base, 0, #[trigger] ids[k], system_owner(), AccountConstraint::Negative, -amt)
                &&& change_allowed(&base, m, ids[k], owner@, AccountConstraint::Positive, amt)
            },
            forall|j: int| base.accounts.len() <= j < tx.accounts.len() ==> (#[trigger] tx.accounts@[j]).market_id == 0
                || (tx.accounts@[j].min_balance == Some(0i64) && tx.accounts@[j].max_balance is None),
            tx.transfers@.len() == old(tx).transfers.len() + 1 + i,
            tx.transfers@.subrange(0, old(tx).transfers.len() as int) == old(tx).transfers@,
            transfer_row_is(tx, tx.transfers@[old(tx).transfers.len() as int], old(tx).events.len() as int, 0, owner@, m,
                owner@, amount),
            forall|k: int| 0 <= k < i ==> transfer_row_is(tx, #[trigger] tx.transfers@[old(tx).transfers.len() + 1 + k],
                old(tx).events.len() as int, 0, system_owner(), m, owner@, Amount(amount.0, AssetId(ids[k] as i64))),
        decreases n - i,
    {
        let outcome = &market.outcomes[i];
        let asset: AssetId = AssetId(outcome.id.0);
        let ghost a = asset.0 as int;
        let ghost cur = *tx;
        proof {
            assert(a == ids[i as int]);
            assert(!ids.take(i as int).contains(a)) by {
                if ids.take(i as int).contains(a) {
                    let k = choose|k: int| 0 <= k < i && ids.take(i as int)[k] == a;
                    assert(ids[k] < ids[i as int]);
                }
            }
            assert forall|j: int| base.accounts.len() <= j < cur.accounts.len() implies !has_key(#[trigger] cur.accounts@[j], 0, a, system_owner()) by {
                assert(deposit_touches(m, ids.take(i as int), owner@, cur.accounts@[j].market_id as int, cur.accounts@[j].asset_id as int, cur.accounts@[j].owner@));
            }
            assert forall|j: int| base.accounts.len() <= j < cur.accounts.len() implies !has_key(#[trigger] cur.accounts@[j], m, a, owner@) by {
                assert(deposit_touches(m, ids.take(i as int), owner@, cur.accounts@[j].market_id as int, cur.accounts@[j].asset_id as int, cur.accounts@[j].owner@));
            }
            lemma_untouched_key(&cur, &base, 0, a, system_owner(), neg);
            lemma_untouched_key(&cur, &base, m, a, owner@, pos);
            assert(cur.balance_of(0, a, system_owner()) == base.balance_of(0, a, system_owner()));
            assert(cur.balance_of(m, a, owner@) == base.balance_of(m, a, owner@));
            assert(ids.take(i + 1) =~= ids.take(i as int).push(a));
            lemma_take_contains(ids, i as int);
        }
        transfer_between(tx, event, MarketId::NONE(), system.as_str(), neg, market.id, owner, pos, amount.cast(asset))?;
        proof {
            let tl = old(tx).transfers.len() as int;
            lemma_rows_stable(tx, &cur);
            assert(tx.transfers@.subrange(0, tl) =~= cur.transfers@.subrange(0, tl));
            assert(tx.transfers@[tl] == cur.transfers@[tl]);
            assert(transfer_row_is(&cur, cur.transfers@[tl], old(tx).events.len() as int, 0, owner@, m, owner@, amount));
            assert forall|k: int| 0 <= k < i + 1 implies transfer_row_is(tx, #[trigger] tx.transfers@[tl + 1 + k],
                old(tx).events.len() as int, 0, system_owner(), m, owner@, Amount(amount.0, AssetId(ids[k] as i64))) by {
                if k < i {
                    assert(tx.transfers@[tl + 1 + k] == cur.transfers@[tl + 1 + k]);
                    assert(transfer_row_is(&cur, cur.transfers@[tl + 1 + k], old(tx).events.len() as int, 0, system_owner(), m,
                        owner@, Amount(amount.0, AssetId(ids[k] as i64))));
                } else {
                    assert(tx.transfers@[tl + 1 + k] == tx.transfers@.last());
                    assert(AssetId(ids[k] as i64) == asset);
                }
            }
            assert forall|km: int, ka: int, ko: Seq<char>| #[trigger] tx.balance_of(km, ka, ko) == base.balance_of(km, ka, ko)
                + deposit_delta(m, ids.take(i + 1), amt, owner@, km, ka, ko) by {
                assert(cur.balance_of(km, ka, ko) == base.balance_of(km, ka, ko) + deposit_delta(m, ids.take(i as int), amt, owner@, km, ka, ko));
            }
            assert forall|mm: int, aa: int| #[trigger] tx.market_total(mm, aa) == base.market_total(mm, aa)
                + deposit_total_delta(m, ids.take(i + 1), amt, mm, aa) by {
                assert(cur.market_total(mm, aa) == base.market_total(mm, aa) + deposit_total_delta(m, ids.take(i as int), amt, mm, aa));
            }
            assert forall|j: int| base.accounts.len() <= j < tx.accounts.len() implies deposit_touches(
                m, ids.take(i + 1), owner@, (#[trigger] tx.accounts@[j]).market_id as int, tx.accounts@[j].asset_id as int, tx.accounts@[j].owner@) by {
                if j < cur.accounts.len() {
                    assert(tx.accounts@[j] == tx.accounts@.subrange(0, cur.accounts.len() as int)[j]);
                    assert(deposit_touches(m, ids.take(i as int), owner@, cur.accounts@[j].market_id as int, cur.accounts@[j].asset_id as int, cur.accounts@[j].owner@));
                }
                if ids.take(i as int).contains(tx.accounts@[j].asset_id as int) {
                    let k = choose|k: int| 0 <= k < i && ids.take(i as int)[k] == tx.accounts@[j].asset_id as int;
                    assert(ids.take(i + 1)[k] == ids.take(i as int)[k]);
                }
            }
            assert forall|j: int| base.accounts.len() <= j < tx.accounts.len() implies (#[trigger] tx.accounts@[j]).market_id == 0
                || (tx.accounts@[j].min_balance == Some(0i64) && tx.accounts@[j].max_balance is None) by {
                if j < cur.accounts.len() {
                    assert(tx.accounts@[j] == tx.accounts@.subrange(0, cur.accounts.len() as int)[j]);
                }
            }
            assert(tx.accounts@.subrange(0, base.accounts.len() as int) =~= base.accounts@) by {
                assert(tx.accounts@.subrange(0, base.accounts.len() as int) =~= tx.accounts@.subrange(0, cur.accounts.len() as int).subrange(0, base.accounts.len() as int));
            }
        }
        i = i + 1;
    }
    proof {
        assert(ids.take(n) =~= ids);
        lemma_deposit_keeps_balance(old(tx), tx, m, ids, amt);
    }
    Ok(())
}


/// How a trade in market `m` changes the balance of a key: the owner pays
/// `amount_in` into the system's pool, and the pool pays `amount_out` to the owner.
pub open spec fn trade_delta(
    m: int,
    amount_in: Amount,
    amount_out: Amount,
    owner: Seq<char>,
    km: int,
    ka: int,
    ko: Seq<char>,
) -> int {
    (if km == m && ka == amount_in.1.0 && ko == owner {
        -amount_in.0
    } else {
        0
    }) + (if km == m && ka == amount_in.1.0 && ko == system_owner() {
        amount_in.0 as int
    } else {
        0
    }) + (if km == m && ka == amount_out.1.0 && ko == system_owner() {
        -amount_out.0
    } else {
        0
    }) + (if km == m && ka == amount_out.1.0 && ko == owner {
        amount_out.0 as int
    } else {
        0
    })
}

/// How the first step of a trade in market `m` changes the balance of a
/// key: `amount_in` moves from the owner to the pool.
pub open spec fn trade_in_delta(m: int, amount_in: Amount, owner: Seq<char>, km: int, ka: int, ko: Seq<char>) -> int {
    (if km == m && ka == amount_in.1.0 && ko == owner {
        -amount_in.0
    } else {
        0
    }) + (if km == m && ka == amount_in.1.0 && ko == system_owner() {
        amount_in.0 as int
    } else {
        0
    })
}

/// Whether the first step of a trade is allowed: `amount_in` may leave the
/// owner's account and enter the pool's.
pub open spec fn trade_in_allowed(tx: &Ledger, m: int, amount_in: Amount, owner: Seq<char>) -> bool {
    let pos = AccountConstraint::Positive;
    &&& change_allowed(tx, m, amount_in.1.0 as int, owner, pos, -amount_in.0)
    &&& change_allowed(tx, m, amount_in.1.0 as int, system_owner(), pos, amount_in.0 as int)
}

/// The balance changes of a trade are all allowed by the accounts' bounds:
/// first `amount_in` moves from the owner to the pool, then `amount_out`
/// from the pool to the owner, on top of the first move when both amounts
/// are of one asset.
pub open spec fn trade_allowed(tx: &Ledger, m: int, amount_in: Amount, amount_out: Amount, owner: Seq<char>) -> bool {
    let pos = AccountConstraint::Positive;
    let moved: int = if amount_in.1 == amount_out.1 {
        amount_in.0 as int
    } else {
        0
    };
    &&& change_allowed(tx, m, amount_in.1.0 as int, owner, pos, -amount_in.0)
    &&& change_allowed(tx, m, amount_in.1.0 as int, system_owner(), pos, amount_in.0 as int)
    &&& change_allowed(tx, m, amount_out.1.0 as int, system_owner(), pos, moved - amount_out.0)
    &&& change_allowed(tx, m, amount_out.1.0 as int, owner, pos, amount_out.0 - moved)
}

/// Record a trade of `owner` against the market's pool, in one "Trade" event
/// of the owner: `amount_in` moves from the owner to the pool (the system's
/// accounts in the market), and `amount_out` from the pool to the owner.
///
/// Given room for the event and the accounts, a trade succeeds exactly when
/// every balance change stays within its account's bounds and `i64`:
/// neither the owner nor the pool can go below zero.
///
/// The owner must already hold the shares sold; `place_trade` deposits what
/// is missing first.
pub fn create_trade(
    tx: &mut Ledger,
    market: &Market,
    amount_in: Amount,
    amount_out: Amount,
    owner: &str,
) -> (r: Result<(), LedgerError>)
    requires
        old(tx).wf(),
        1 <= market.id.0 <= old(tx).markets.len(),
        old(tx).schema_ok(market.id.0 as int, amount_in.1.0 as int),
        old(tx).schema_ok(market.id.0 as int, amount_out.1.0 as int),
        owner@ != system_owner(),
        amount_in.0 > 0,
        amount_out.0 > 0,
    ensures
        final(tx).wf(),
        final(tx).markets@ == old(tx).markets@,
        final(tx).outcomes@ == old(tx).outcomes@,
        final(tx).profits@ == old(tx).profits@,
        r is Ok ==> {
            &&& final(tx).events@.drop_last() == old(tx).events@
            &&& final(tx).events@.len() == old(tx).events@.len() + 1
            &&& final(tx).events@.last().owner@ == owner@
            &&& final(tx).events@.last().description@ == "Trade"@
            &&& final(tx).transfers@.len() == old(tx).transfers@.len() + 2
            &&& final(tx).transfers@.subrange(0, old(tx).transfers.len() as int) == old(tx).transfers@
            &&& transfer_row_is(final(tx), final(tx).transfers@[old(tx).transfers.len() as int], old(tx).events.len() as int,
                market.id.0 as int, owner@, market.id.0 as int, system_owner(), amount_in)
            &&& transfer_row_is(final(tx), final(tx).transfers@[old(tx).transfers.len() + 1], old(tx).events.len() as int,
                market.id.0 as int, system_owner(), market.id.0 as int, owner@, amount_out)
            &&& forall|m: int, a: int, o: Seq<char>| #[trigger] final(tx).balance_of(m, a, o)
                == old(tx).balance_of(m, a, o) + trade_delta(market.id.0 as int, amount_in, amount_out, owner@, m, a, o)
            &&& forall|m: int, a: int| #[trigger] final(tx).market_total(m, a) == old(tx).market_total(m, a)
            &&& forall|m: int| #[trigger] old(tx).market_balanced(m) ==> final(tx).market_balanced(m)
        },
        old(tx).events.len() < i64::MAX && old(tx).accounts.len() + 4 <= i64::MAX
            ==> (r is Ok <==> trade_allowed(old(tx), market.id.0 as int, amount_in, amount_out, owner@)),
        // A refused trade returns at the step that is refused: the event, or
        // the owner's side, or the pool's side; the steps before it stay.
        r is Err ==> {
            ||| *final(tx) == *old(tx)
            ||| {
                &&& final(tx).events@ == old(tx).events@.push(final(tx).events@.last())
                &&& final(tx).events@.last().owner@ == owner@
                &&& final(tx).events@.last().description@ == "Trade"@
                &&& final(tx).transfers@ == old(tx).transfers@
                &&& forall|m: int, a: int, o: Seq<char>| #[trigger] final(tx).balance_of(m, a, o) == old(tx).balance_of(m, a, o)
            }
            ||| {
                &&& final(tx).events@ == old(tx).events@.push(final(tx).events@.last())
                &&& final(tx).events@.last().owner@ == owner@
                &&& final(tx).events@.last().description@ == "Trade"@
                &&& final(tx).transfers@ == old(tx).transfers@.push(final(tx).transfers@.last())
                &&& transfer_row_is(final(tx), final(tx).transfers@.last(), old(tx).events.len() as int,
                    market.id.0 as int, owner@, market.id.0 as int, system_owner(), amount_in)
                &&& forall|m: int, a: int, o: Seq<char>| #[trigger] final(tx).balance_of(m, a, o)
                    == old(tx).balance_of(m, a, o) + trade_in_delta(market.id.0 as int, amount_in, owner@, m, a, o)
            }
        },
        // Given room, the owner's side stays exactly when it is allowed: when
        // only the pool's side is refused.
        old(tx).events.len() < i64::MAX && old(tx).accounts.len() + 4 <= i64::MAX && r is Err ==> (trade_in_allowed(
            old(tx),
            market.id.0 as int,
            amount_in,
            owner@,
        ) <==> final(tx).transfers@.len() == old(tx).transfers@.len() + 1),
{
    let ghost m = market.id.0 as int;
    let ghost room = old(tx).events.len() < i64::MAX && old(tx).accounts.len() + 4 <= i64::MAX;
    let event = match tx.create_event(owner, "Trade") {
        Ok(id) => EventId(id),
        Err(e) => return Err(e),
    };
    let ghost base = *tx;
    let system = system_owner_string();
    let pos = AccountConstraint::Positive;
    match transfer_between(tx, event, market.id, owner, pos, market.id, system.as_str(), pos, amount_in) {
        Ok(()) => {},
        Err(e) => {
            proof {
                assert(tx.events@ =~= old(tx).events@.push(tx.events@.last()));
                assert(base.balance_of(m, amount_in.1.0 as int, owner@) == old(tx).balance_of(m, amount_in.1.0 as int, owner@));
            }
            return Err(e);
        },
    }
    let ghost mid = *tx;
    proof {
        assert(mid.transfers@ =~= old(tx).transfers@.push(mid.transfers@.last()));
        assert(mid.events@ =~= old(tx).events@.push(mid.events@.last()));
        assert forall|mm: int, a: int, o: Seq<char>| #[trigger] mid.balance_of(mm, a, o)
            == old(tx).balance_of(mm, a, o) + trade_in_delta(m, amount_in, owner@, mm, a, o) by {
            assert(base.balance_of(mm, a, o) == old(tx).balance_of(mm, a, o));
        }
        assert(mid.accounts@.subrange(0, base.accounts.len() as int) =~= base.accounts@);
        assert forall|j: int| base.accounts.len() <= j < mid.accounts.len() implies (#[trigger] mid.accounts@[j]).min_balance
            == Some(0i64) && mid.accounts@[j].max_balance is None by {}
        lemma_pos_bounds_stable(&mid, &base);
        let a = amount_out.1.0 as int;
        let moved: int = if amount_in.1 == amount_out.1 { amount_in.0 as int } else { 0 };
        assert(mid.balance_of(m, a, system_owner()) == base.balance_of(m, a, system_owner()) + moved);
        assert(mid.balance_of(m, a, owner@) == base.balance_of(m, a, owner@) - moved);
        assert(bounds_for(&mid, m, a, system_owner(), pos) == bounds_for(&base, m, a, system_owner(), pos));
        assert(bounds_for(&mid, m, a, owner@, pos) == bounds_for(&base, m, a, owner@, pos));
    }
    match transfer_between(tx, event, market.id, system.as_str(), pos, market.id, owner, pos, amount_out) {
        Ok(()) => {},
        Err(e) => {
            proof {
                assert forall|mm: int, a: int, o: Seq<char>| #[trigger] tx.balance_of(mm, a, o)
                    == old(tx).balance_of(mm, a, o) + trade_in_delta(m, amount_in, owner@, mm, a, o) by {
                    assert(mid.balance_of(mm, a, o) == old(tx).balance_of(mm, a, o) + trade_in_delta(m, amount_in, owner@, mm, a, o));
                }
                lemma_rows_stable(tx, &mid);
                assert(transfer_row_is(&mid, mid.transfers@.last(), old(tx).events.len() as int, m, owner@, m, system_owner(), amount_in));
            }
            return Err(e);
        },
    }
    proof {
        let m0 = market.id.0 as int;
        lemma_index_stable(tx, &mid, m0, amount_in.1.0 as int, owner@);
        lemma_index_stable(tx, &mid, m0, amount_in.1.0 as int, system_owner());
        assert(tx.transfers@[old(tx).transfers.len() as int] == mid.transfers@.last());
        assert(tx.transfers@.subrange(0, old(tx).transfers.len() as int) =~= old(tx).transfers@);
        assert forall|mm: int, a: int| #[trigger] tx.market_total(mm, a) == old(tx).market_total(mm, a) by {
            assert(mid.market_total(mm, a) == base.market_total(mm, a));
        }
        assert forall|mm: int| #[trigger] old(tx).market_balanced(mm) implies tx.market_balanced(mm) by {
            assert forall|k: int| 0 <= k < tx.outcome_ids(mm).len() implies tx.market_total(mm, #[trigger] tx.outcome_ids(mm)[k])
                == tx.market_total(mm, 0) by {
                assert(old(tx).market_total(mm, old(tx).outcome_ids(mm)[k]) == old(tx).market_total(mm, 0));
            }
        }
    }
    Ok(())
}


/// The points that a trade of `amount_in` shares of asset `a` in market `m`
/// must deposit first: what the owner lacks of those shares (a deposit mints
/// one share of every outcome per point).
pub open spec fn deposit_needed(tx: &Ledger, m: int, amount_in: Amount, owner: Seq<char>) -> int {
    let held = tx.balance_of(m, amount_in.1.0 as int, owner);
    if held >= amount_in.0 {
        0
    } else if held < 0 {
        amount_in.0 as int
    } else {
        amount_in.0 - held
    }
}

/// Whether the trade is allowed on the ledger that a deposit of `d` points
/// by the owner into market `m` (with outcomes `ids`) leaves: `trade_allowed`
/// with every balance moved by the deposit first.
pub open spec fn trade_allowed_after_deposit(
    tx: &Ledger,
    m: int,
    ids: Seq<int>,
    d: int,
    amount_in: Amount,
    amount_out: Amount,
    owner: Seq<char>,
) -> bool {
    let pos = AccountConstraint::Positive;
    let moved: int = if amount_in.1 == amount_out.1 {
        amount_in.0 as int
    } else {
        0
    };
    let i = amount_in.1.0 as int;
    let o = amount_out.1.0 as int;
    let sys = system_owner();
    &&& change_allowed(tx, m, i, owner, pos, -amount_in.0 + deposit_delta(m, ids, d, owner, m, i, owner))
    &&& change_allowed(tx, m, i, sys, pos, amount_in.0 + deposit_delta(m, ids, d, owner, m, i, sys))
    &&& change_allowed(tx, m, o, sys, pos, moved - amount_out.0 + deposit_delta(m, ids, d, owner, m, o, sys))
    &&& change_allowed(tx, m, o, owner, pos, amount_out.0 - moved + deposit_delta(m, ids, d, owner, m, o, owner))
}

/// After a deposit, a positive account in market `m` may change as the same
/// account could have before, moved by the deposit.
proof fn lemma_change_after_deposit(
    new: &Ledger,
    old: &Ledger,
    m: int,
    ids: Seq<int>,
    d: int,
    owner: Seq<char>,
    a: int,
    o: Seq<char>,
    delta: int,
)
    requires
        new.wf(),
        old.wf(),
        m >= 1,
        old.accounts.len() <= new.accounts.len(),
        new.accounts@.subrange(0, old.accounts.len() as int) == old.accounts@,
        forall|j: int| old.accounts.len() <= j < new.accounts.len() ==> (#[trigger] new.accounts@[j]).market_id == 0
            || (new.accounts@[j].min_balance == Some(0i64) && new.accounts@[j].max_balance is None),
        forall|km: int, ka: int, ko: Seq<char>| #[trigger] new.balance_of(km, ka, ko) == old.balance_of(km, ka, ko)
            + deposit_delta(m, ids, d, owner, km, ka, ko),
    ensures
        change_allowed(new, m, a, o, AccountConstraint::Positive, delta) == change_allowed(
            old,
            m,
            a,
            o,
            AccountConstraint::Positive,
            delta + deposit_delta(m, ids, d, owner, m, a, o),
        ),
{
    let pos = AccountConstraint::Positive;
    assert(new.balance_of(m, a, o) == old.balance_of(m, a, o) + deposit_delta(m, ids, d, owner, m, a, o));
    match old.account_index(m, a, o) {
        Some(i) => {
            lemma_index_stable(new, old, m, a, o);
            assert(new.accounts@[i] == new.accounts@.subrange(0, old.accounts.len() as int)[i]);
        },
        None => {
            match new.account_index(m, a, o) {
                Some(j) => {
                    assert(has_key(new.accounts@[j], m, a, o));
                    if j < old.accounts.len() {
                        assert(new.accounts@[j] == new.accounts@.subrange(0, old.accounts.len() as int)[j]);
                        assert(has_key(old.accounts@[j], m, a, o));
                        assert(false);
                    }
                },
                None => {},
            }
        },
    }
    assert(bounds_for(new, m, a, o, pos) == bounds_for(old, m, a, o, pos));
}

/// Trade in a market at time `now`, with a deposit first when needed.
///
/// A market takes trades from its `opens_at` (included) to its `closes_at`
/// (excluded); at any other time the trade is refused with `Closed`. When
/// the owner holds fewer than `amount_in` shares of the asset sold, the
/// missing shares are first minted by a deposit of that many points, as
/// `create_deposit` does, in a "Deposit" event; then the trade happens as
/// `create_trade` does, in a "Trade" event.
///
/// A trade refused for the market's dates changes nothing. A trade that the
/// ledger refuses may leave its first steps done (the deposit, the trade's
/// event, the owner's side of the trade), as its steps do: callers run
/// requests on a copy of the ledger that they drop when the request fails.
pub fn place_trade(
    tx: &mut Ledger,
    market: &Market,
    amount_in: Amount,
    amount_out: Amount,
    owner: &str,
    now: &Datetime,
) -> (r: Result<(), LedgerError>)
    requires
        old(tx).wf(),
        market.outcomes_match(old(tx)),
        market.outcome_ids().contains(amount_in.1.0 as int),
        old(tx).schema_ok(market.id.0 as int, amount_in.1.0 as int),
        old(tx).schema_ok(market.id.0 as int, amount_out.1.0 as int),
        owner@ != system_owner(),
        amount_in.0 > 0,
        amount_out.0 > 0,
    ensures
        final(tx).wf(),
        final(tx).markets@ == old(tx).markets@,
        final(tx).outcomes@ == old(tx).outcomes@,
        final(tx).profits@ == old(tx).profits@,
        !trading_open(market.opens_at, market.closes_at, *now) ==> r == Err::<(), LedgerError>(LedgerError::Closed)
            && *final(tx) == *old(tx),
        r is Ok ==> {
            let d = deposit_needed(old(tx), market.id.0 as int, amount_in, owner@);
            &&& trading_open(market.opens_at, market.closes_at, *now)
            &&& d == 0 ==> final(tx).events@ == old(tx).events@.push(final(tx).events@.last())
            &&& d > 0 ==> {
                &&& final(tx).events@.len() == old(tx).events@.len() + 2
                &&& final(tx).events@.subrange(0, old(tx).events.len() as int) == old(tx).events@
                &&& final(tx).events@[old(tx).events.len() as int].owner@ == owner@
                &&& final(tx).events@[old(tx).events.len() as int].description@ == "Deposit"@
            }
            &&& final(tx).events@.last().owner@ == owner@
            &&& final(tx).events@.last().description@ == "Trade"@
            &&& forall|km: int, ka: int, ko: Seq<char>| #[trigger] final(tx).balance_of(km, ka, ko)
                == old(tx).balance_of(km, ka, ko) + deposit_delta(
                market.id.0 as int,
                market.outcome_ids(),
                d,
                owner@,
                km,
                ka,
                ko,
            ) + trade_delta(market.id.0 as int, amount_in, amount_out, owner@, km, ka, ko)
            &&& forall|mm: int| #[trigger] old(tx).market_balanced(mm) ==> final(tx).market_balanced(mm)
        },
        // Shares held are sold before liquid points are spent: the owner's
        // global points go down by exactly the shares that were missing.
        r is Ok ==> {
            let held = old(tx).balance_of(market.id.0 as int, amount_in.1.0 as int, owner@);
            &&& held >= amount_in.0 ==> final(tx).balance_of(0, 0, owner@) == old(tx).balance_of(0, 0, owner@)
            &&& 0 <= held < amount_in.0 ==> final(tx).balance_of(0, 0, owner@) == old(tx).balance_of(0, 0, owner@) - (
            amount_in.0 - held)
        },
        // Given room for the events and the accounts, at a time when the
        // market is open: without a deposit, the trade succeeds exactly when
        // `trade_allowed` says; with one, exactly when the deposit is allowed
        // and the trade is allowed on what the deposit leaves.
        trading_open(market.opens_at, market.closes_at, *now) && old(tx).events.len() + 1 < i64::MAX
            && old(tx).accounts.len() + 6 + 2 * market.outcomes.len() <= i64::MAX ==> {
            let d = deposit_needed(old(tx), market.id.0 as int, amount_in, owner@);
            &&& d == 0 ==> (r is Ok <==> trade_allowed(old(tx), market.id.0 as int, amount_in, amount_out, owner@))
            &&& d > 0 ==> (r is Ok <==> deposit_allowed(old(tx), market.id.0 as int, market.outcome_ids(), d, owner@)
                && trade_allowed_after_deposit(old(tx), market.id.0 as int, market.outcome_ids(), d, amount_in, amount_out, owner@))
        },
{
    if !crate::config::is_trading_open(market.opens_at, market.closes_at, now) {
        return Err(LedgerError::Closed);
    }
    let held = tx.balance_of_key(market.id.0, amount_in.1.0, owner);
    let needed: i64 = if held >= amount_in.0 {
        0
    } else if held < 0 {
        amount_in.0
    } else {
        amount_in.0 - held
    };
    let ghost t0 = *tx;
    if needed > 0 {
        match create_deposit(tx, market, Amount(needed, AssetId(0)), owner) {
            Ok(()) => {},
            Err(e) => {
                return Err(e);
            },
        }
    }
    let ghost t1 = *tx;
    proof {
        if needed > 0 {
            let m = market.id.0 as int;
            let ids = market.outcome_ids();
            let dd = needed as int;
            let i = amount_in.1.0 as int;
            let o = amount_out.1.0 as int;
            let sys = system_owner();
            let moved: int = if amount_in.1 == amount_out.1 { amount_in.0 as int } else { 0 };
            lemma_change_after_deposit(&t1, &t0, m, ids, dd, owner@, i, owner@, -amount_in.0);
            lemma_change_after_deposit(&t1, &t0, m, ids, dd, owner@, i, sys, amount_in.0 as int);
            lemma_change_after_deposit(&t1, &t0, m, ids, dd, owner@, o, sys, moved - amount_out.0);
            lemma_change_after_deposit(&t1, &t0, m, ids, dd, owner@, o, owner@, amount_out.0 - moved);
            assert(trade_allowed(&t1, m, amount_in, amount_out, owner@) == trade_allowed_after_deposit(&t0, m, ids, dd,
                amount_in, amount_out, owner@));
        }
        if needed == 0 {
            assert forall|km: int, ka: int, ko: Seq<char>| #[trigger] t1.balance_of(km, ka, ko) == t0.balance_of(km, ka, ko)
                + deposit_delta(market.id.0 as int, market.outcome_ids(), 0, owner@, km, ka, ko) by {}
        }
        assert(t1.schema_ok(market.id.0 as int, amount_in.1.0 as int));
        assert(t1.schema_ok(market.id.0 as int, amount_out.1.0 as int));
    }
    let r = create_trade(tx, market, amount_in, amount_out, owner);
    if r.is_err() {
        return r;
    }
    proof {
        assert forall|km: int, ka: int, ko: Seq<char>| #[trigger] tx.balance_of(km, ka, ko) == t0.balance_of(km, ka, ko)
            + deposit_delta(market.id.0 as int, market.outcome_ids(), needed as int, owner@, km, ka, ko)
            + trade_delta(market.id.0 as int, amount_in, amount_out, owner@, km, ka, ko) by {
            assert(t1.balance_of(km, ka, ko) == t0.balance_of(km, ka, ko)
                + deposit_delta(market.id.0 as int, market.outcome_ids(), needed as int, owner@, km, ka, ko));
        }
        if needed > 0 {
            assert(tx.events@.subrange(0, t0.events.len() as int) =~= t0.events@);
            assert(tx.events@[t0.events.len() as int] == t1.events@.last());
        }
    }
    proof {
        let ids = market.outcome_ids();
        assert(!ids.contains(0)) by {
            lemma_outcome_ids(old(tx).outcomes@, market.id.0 as int);
            if ids.contains(0) {
                let k = choose|k: int| 0 <= k < ids.len() && ids[k] == 0;
                assert(ids[k] == old(tx).outcome_ids(market.id.0 as int)[k]);
            }
        }
        assert(tx.balance_of(0, 0, owner@) == t0.balance_of(0, 0, owner@)
            + deposit_delta(market.id.0 as int, ids, needed as int, owner@, 0, 0, owner@)
            + trade_delta(market.id.0 as int, amount_in, amount_out, owner@, 0, 0, owner@));
    }
    r
}

/// The values of a sequence of `i64`, as integers.
pub open spec fn as_ints(s: Seq<i64>) -> Seq<int> {
    s.map_values(|x: i64| x as int)
}

/// Whether some account of market `m` belongs to `owner`.
pub open spec fn owner_in_market(tx: &Ledger, m: int, owner: Seq<char>) -> bool {
    exists|j: int|
        0 <= j < tx.accounts.len() && (#[trigger] tx.accounts@[j]).market_id == m && tx.accounts@[j].owner@
            == owner
}

pub open spec fn owners_distinct(balances: Seq<(String, Balance)>) -> bool {
    forall|i: int, j: int|
        0 <= i < balances.len() && 0 <= j < balances.len() && i != j ==> (#[trigger] balances[i]).0@
            != (#[trigger] balances[j]).0@
}

/// `b` holds the balances of `owner` in market `m`, whose outcomes are `ids`.
pub open spec fn balance_matches(tx: &Ledger, m: int, ids: Seq<int>, owner: Seq<char>, b: Balance) -> bool {
    &&& b.points == Amount(tx.balance_of(m, 0, owner) as i64, AssetId(0))
    &&& b.outcomes@.len() == ids.len()
    &&& forall|k: int|
        0 <= k < ids.len() ==> (#[trigger] b.outcomes@[k]) == Amount(
            tx.balance_of(m, ids[k], owner) as i64,
            AssetId(ids[k] as i64),
        )
}

impl Market {
    /// The market is what the ledger holds of it: its row, its outcomes, one
    /// balance for each owner of an account in the market (and no other), and
    /// the profits recorded when it resolved.
    pub open spec fn snapshot_of(&self, tx: &Ledger) -> bool {
        let m = self.id.0 as int;
        let ids = self.outcome_ids();
        &&& self.outcomes_match(tx)
        &&& self.slug@ == tx.markets@[m - 1].slug@
        &&& self.title@ == tx.markets@[m - 1].title@
        &&& self.description@ == tx.markets@[m - 1].description@
        &&& self.kind == tx.markets@[m - 1].kind
        &&& self.opens_at == tx.markets@[m - 1].opens_at
        &&& self.closes_at == tx.markets@[m - 1].closes_at
        &&& forall|k: int| 0 <= k < ids.len() ==> (#[trigger] self.outcomes@[k]).value@ == tx.outcomes@[ids[k] - 1].value@
        &&& owners_distinct(self.balances@)
        &&& forall|i: int|
            0 <= i < self.balances.len() ==> balance_matches(tx, m, ids, (#[trigger] self.balances@[i]).0@, self.balances@[i].1)
        &&& forall|i: int| 0 <= i < self.balances.len() ==> owner_in_market(tx, m, (#[trigger] self.balances@[i]).0@)
        &&& forall|j: int|
            0 <= j < tx.accounts.len() && (#[trigger] tx.accounts@[j]).market_id == m ==> exists|i: int|
                0 <= i < self.balances.len() && (#[trigger] self.balances@[i]).0@ == tx.accounts@[j].owner@
        &&& self.profits@.len() == market_profits(tx.profits@, m).len()
        &&& forall|k: int| 0 <= k < self.profits.len() ==> {
            &&& (#[trigger] self.profits@[k]).owner@ == market_profits(tx.profits@, m)[k].owner@
            &&& self.profits@[k].amount_in == Amount(market_profits(tx.profits@, m)[k].amount_in, AssetId(0))
            &&& self.profits@[k].amount_out == Amount(market_profits(tx.profits@, m)[k].amount_out, AssetId(0))
        }
    }
}

/// Whether `owners` holds `owner`.
fn contains_owner(owners: &Vec<String>, owner: &str) -> (r: bool)
    ensures
        r == exists|i: int| 0 <= i < owners.len() && (#[trigger] owners@[i])@ == owner@,
{
    let mut i: usize = 0;
    while i < owners.len()
        invariant
            i <= owners.len(),
            forall|k: int| 0 <= k < i ==> (#[trigger] owners@[k])@ != owner@,
        decreases owners.len() - i,
    {
        if str_eq(owners[i].as_str(), owner) {
            return true;
        }
        i = i + 1;
    }
    false
}

/// The owners of accounts in market `m`, each once, in order of their first account.
fn market_owners(tx: &Ledger, m: i64) -> (r: Vec<String>)
    requires
        tx.wf(),
    ensures
        forall|i: int, j: int| 0 <= i < r.len() && 0 <= j < r.len() && i != j ==> (#[trigger] r@[i])@ != (#[trigger] r@[j])@,
        forall|i: int| 0 <= i < r.len() ==> owner_in_market(tx, m as int, (#[trigger] r@[i])@),
        forall|j: int|
            0 <= j < tx.accounts.len() && (#[trigger] tx.accounts@[j]).market_id == m ==> exists|i: int|
                0 <= i < r.len() && (#[trigger] r@[i])@ == tx.accounts@[j].owner@,
{
    let mut owners: Vec<String> = Vec::new();
    let mut j: usize = 0;
    while j < tx.accounts.len()
        invariant
            tx.wf(),
            j <= tx.accounts.len(),
            forall|a: int, b: int| 0 <= a < owners.len() && 0 <= b < owners.len() && a != b ==> (#[trigger] owners@[a])@ != (#[trigger] owners@[b])@,
            forall|i: int| 0 <= i < owners.len() ==> owner_in_market(tx, m as int, (#[trigger] owners@[i])@),
            forall|k: int|
                0 <= k < j && (#[trigger] tx.accounts@[k]).market_id == m ==> exists|i: int|
                    0 <= i < owners.len() && (#[trigger] owners@[i])@ == tx.accounts@[k].owner@,
        decreases tx.accounts.len() - j,
    {
        let row = &tx.accounts[j];
        if row.market_id == m && !contains_owner(&owners, row.owner.as_str()) {
            let ghost before = owners@;
            owners.push(row.owner.clone());
            proof {
                assert(owners@[owners.len() - 1] == tx.accounts@[j as int].owner);
                assert forall|k: int|
                    0 <= k < j + 1 && (#[trigger] tx.accounts@[k]).market_id == m implies exists|i: int|
                        0 <= i < owners.len() && (#[trigger] owners@[i])@ == tx.accounts@[k].owner@ by {
                    if k < j {
                        let i = choose|i: int| 0 <= i < before.len() && (#[trigger] before[i])@ == tx.accounts@[k].owner@;
                        assert(owners@[i] == before[i]);
                    } else {
                        assert(owners@[owners.len() - 1]@ == tx.accounts@[k].owner@);
                    }
                }
                assert forall|i: int| 0 <= i < owners.len() implies owner_in_market(tx, m as int, (#[trigger] owners@[i])@) by {
                    if i < before.len() {
                        assert(owners@[i] == before[i]);
                    } else {
                        assert(tx.accounts@[j as int].market_id == m);
                    }
                }
                assert forall|a: int, b: int| 0 <= a < owners.len() && 0 <= b < owners.len() && a != b implies (#[trigger] owners@[a])@ != (#[trigger] owners@[b])@ by {
                    if a < before.len() && b < before.len() {
                        assert(owners@[a] == before[a]);
                        assert(owners@[b] == before[b]);
                    } else if a < before.len() {
                        assert(owners@[a] == before[a]);
                    } else if b < before.len() {
                        assert(owners@[b] == before[b]);
                    }
                }
            }
        } else {
            proof {
                assert forall|k: int|
                    0 <= k < j + 1 && (#[trigger] tx.accounts@[k]).market_id == m implies exists|i: int|
                        0 <= i < owners.len() && (#[trigger] owners@[i])@ == tx.accounts@[k].owner@ by {
                    if k == j {
                        assert(exists|i: int| 0 <= i < owners.len() && (#[trigger] owners@[i])@ == tx.accounts@[j as int].owner@);
                    }
                }
            }
        }
        j = j + 1;
    }
    owners
}

/// The balances of `owner` in market `m`, whose outcomes are `ids`.
fn owner_balance(tx: &Ledger, m: i64, ids: &Vec<i64>, owner: &str) -> (r: Balance)
    requires
        tx.wf(),
    ensures
        balance_matches(tx, m as int, as_ints(ids@), owner@, r),
{
    let ghost ids_int = as_ints(ids@);
    let mut outcomes: Vec<Amount> = Vec::new();
    let mut k: usize = 0;
    while k < ids.len()
        invariant
            tx.wf(),
            k <= ids.len(),
            ids_int == as_ints(ids@),
            outcomes@.len() == k,
            forall|q: int|
                0 <= q < k ==> (#[trigger] outcomes@[q]) == Amount(
                    tx.balance_of(m as int, ids_int[q], owner@) as i64,
                    AssetId(ids_int[q] as i64),
                ),
        decreases ids.len() - k,
    {
        let b = tx.balance_of_key(m, ids[k], owner);
        outcomes.push(Amount(b, AssetId(ids[k])));
        k = k + 1;
    }
    let points = Amount(tx.balance_of_key(m, 0, owner), AssetId(0));
    Balance { outcomes, points }
}

/// The profits recorded for market `m`.
fn market_realized_profits(tx: &Ledger, m: i64) -> (r: Vec<RealizedProfit>)
    requires
        tx.wf(),
    ensures
        r@.len() == market_profits(tx.profits@, m as int).len(),
        forall|k: int| 0 <= k < r.len() ==> {
            &&& (#[trigger] r@[k]).owner@ == market_profits(tx.profits@, m as int)[k].owner@
            &&& r@[k].amount_in == Amount(market_profits(tx.profits@, m as int)[k].amount_in, AssetId(0))
            &&& r@[k].amount_out == Amount(market_profits(tx.profits@, m as int)[k].amount_out, AssetId(0))
        },
{
    let mut r: Vec<RealizedProfit> = Vec::new();
    let mut i: usize = 0;
    while i < tx.profits.len()
        invariant
            tx.wf(),
            i <= tx.profits.len(),
            r@.len() == market_profits(tx.profits@.subrange(0, i as int), m as int).len(),
            forall|k: int| 0 <= k < r.len() ==> {
                &&& (#[trigger] r@[k]).owner@ == market_profits(tx.profits@.subrange(0, i as int), m as int)[k].owner@
                &&& r@[k].amount_in == Amount(market_profits(tx.profits@.subrange(0, i as int), m as int)[k].amount_in, AssetId(0))
                &&& r@[k].amount_out == Amount(market_profits(tx.profits@.subrange(0, i as int), m as int)[k].amount_out, AssetId(0))
            },
        decreases tx.profits.len() - i,
    {
        proof {
            assert(tx.profits@.subrange(0, i + 1).drop_last() =~= tx.profits@.subrange(0, i as int));
        }
        let row = &tx.profits[i];
        if row.market_id == m {
            r.push(
                RealizedProfit {
                    owner: row.owner.clone(),
                    amount_in: Amount(row.amount_in, AssetId(0)),
                    amount_out: Amount(row.amount_out, AssetId(0)),
                },
            );
        }
        i = i + 1;
    }
    assert(tx.profits@.subrange(0, tx.profits.len() as int) =~= tx.profits@);
    r
}

/// Look up a market by its slug, with its outcomes, the balances of every
/// owner that holds an account in it, and its realized profits.
pub fn get_market_by_slug(tx: &Ledger, slug: &str) -> (r: Result<Option<Market>, LedgerError>)
    requires
        tx.wf(),
    ensures
        match r {
            Ok(Some(market)) => market.snapshot_of(tx) && market.slug@ == slug@,
            Ok(None) => forall|i: int| 0 <= i < tx.markets.len() ==> (#[trigger] tx.markets@[i]).slug@ != slug@,
            Err(_) => false,
        },
{
    let market_id = match tx.market_id_by_slug(slug) {
        Some(id) => id,
        None => return Ok(None),
    };
    let row = &tx.markets[(market_id - 1) as usize];
    let ghost m = market_id as int;
    let rows = tx.get_outcomes(market_id);
    let mut outcomes: Vec<Outcome> = Vec::new();
    let mut ids: Vec<i64> = Vec::new();
    let mut k: usize = 0;
    while k < rows.len()
        invariant
            tx.wf(),
            k <= rows.len(),
            rows@.len() == tx.outcome_ids(m).len(),
            forall|q: int| 0 <= q < rows@.len() ==> {
                &&& (#[trigger] rows@[q]).0 == tx.outcome_ids(m)[q]
                &&& rows@[q].1@ == tx.outcomes@[rows@[q].0 - 1].value@
            },
            outcomes@.len() == k,
            ids@.len() == k,
            forall|q: int| 0 <= q < k ==> {
                &&& (#[trigger] outcomes@[q]).id == OutcomeId(rows@[q].0, MarketId(market_id))
                &&& outcomes@[q].value@ == rows@[q].1@
                &&& ids@[q] == rows@[q].0
            },
        decreases rows.len() - k,
    {
        let (id, value) = (rows[k].0, rows[k].1.clone());
        outcomes.push(Outcome { id: OutcomeId(id, MarketId(market_id)), value });
        ids.push(id);
        k = k + 1;
    }
    let owners = market_owners(tx, market_id);
    let ghost ids_int = as_ints(ids@);
    let mut balances: Vec<(String, Balance)> = Vec::new();
    let mut i: usize = 0;
    while i < owners.len()
        invariant
            tx.wf(),
            i <= owners.len(),
            balances@.len() == i,
            m == market_id as int,
            ids_int == as_ints(ids@),
            forall|q: int| 0 <= q < i ==> (#[trigger] balances@[q]).0 == owners@[q],
            forall|q: int| 0 <= q < i ==> balance_matches(tx, m, ids_int, (#[trigger] balances@[q]).0@, balances@[q].1),
        decreases owners.len() - i,
    {
        let name = owners[i].as_str();
        let b = owner_balance(tx, market_id, &ids, name);
        let ghost before = balances@;
        balances.push((owners[i].clone(), b));
        proof {
            assert(balances@[i as int].0 == owners@[i as int]);
            assert(balances@[i as int].1 == b);
            assert forall|q: int| 0 <= q < i + 1 implies balance_matches(tx, m, ids_int, (#[trigger] balances@[q]).0@, balances@[q].1) by {
                if q < i {
                    assert(balances@[q] == before[q]);
                }
            }
        }
        i = i + 1;
    }
    let profits = market_realized_profits(tx, market_id);
    let market = Market {
        id: MarketId(market_id),
        slug: row.slug.clone(),
        title: row.title.clone(),
        description: row.description.clone(),
        kind: row.kind,
        opens_at: row.opens_at,
        closes_at: row.closes_at,
        outcomes,
        balances,
        profits,
    };
    proof {
        assert(market.outcome_ids() =~= tx.outcome_ids(m));
        assert(ids_int =~= tx.outcome_ids(m));
        assert forall|a: int, b: int| 0 <= a < market.balances.len() && 0 <= b < market.balances.len() && a != b implies (#[trigger] market.balances@[a]).0@
            != (#[trigger] market.balances@[b]).0@ by {
            assert(market.balances@[a].0 == owners@[a]);
            assert(market.balances@[b].0 == owners@[b]);
        }
        assert forall|i: int| 0 <= i < market.balances.len() implies owner_in_market(tx, m, (#[trigger] market.balances@[i]).0@) by {
            assert(market.balances@[i].0 == owners@[i]);
        }
        assert forall|j: int|
            0 <= j < tx.accounts.len() && (#[trigger] tx.accounts@[j]).market_id == m implies exists|i: int|
                0 <= i < market.balances.len() && (#[trigger] market.balances@[i]).0@ == tx.accounts@[j].owner@ by {
            let i = choose|i: int| 0 <= i < owners.len() && (#[trigger] owners@[i])@ == tx.accounts@[j].owner@;
            assert(market.balances@[i].0 == owners@[i]);
        }
    }
    Ok(Some(market))
}


/// All markets, in order of creation.
pub fn get_markets(tx: &Ledger) -> (r: Vec<Market>)
    requires
        tx.wf(),
    ensures
        r@.len() == tx.markets.len(),
        forall|k: int| 0 <= k < r@.len() ==> (#[trigger] r@[k]).snapshot_of(tx) && r@[k].id.0 == k + 1,
{
    let mut r: Vec<Market> = Vec::new();
    let mut k: usize = 0;
    while k < tx.markets.len()
        invariant
            tx.wf(),
            k <= tx.markets.len(),
            r@.len() == k,
            forall|q: int| 0 <= q < k ==> (#[trigger] r@[q]).snapshot_of(tx) && r@[q].id.0 == q + 1,
        decreases tx.markets.len() - k,
    {
        match get_market_by_slug(tx, tx.markets[k].slug.as_str()) {
            Ok(Some(market)) => {
                proof {
                    let i = market.id.0 - 1;
                    if i != k {
                        assert(tx.markets@[i].slug@ == tx.markets@[k as int].slug@);
                    }
                }
                r.push(market);
            },
            _ => {
                // Unreachable: the market at position `k` has this slug.
                assert(tx.markets@[k as int].slug@ == tx.markets@[k as int].slug@);
                return r;
            },
        }
        k = k + 1;
    }
    r
}

/// A trade as the activity overview shows it.
#[derive(Clone, Debug)]
pub struct TradeActivity {
    pub event_id: EventId,
    pub market_id: MarketId,
    pub user_email: String,
    /// What the user bought from the pool: shares of an outcome.
    pub amount_bought: Amount,
}

/// The position of the last transfer of event `e`.
pub open spec fn last_transfer_of(transfers: Seq<TransferRow>, e: int) -> Option<int>
    decreases transfers.len(),
{
    if transfers.len() == 0 {
        None
    } else if transfers.last().event_id == e {
        Some(transfers.len() - 1)
    } else {
        last_transfer_of(transfers.drop_last(), e)
    }
}

/// The trade that event `e` records, if it is one: its last transfer pays
/// the buyer out of the pool, so it names the market, the buyer, and the
/// amount bought.
pub open spec fn trade_of_event(tx: &Ledger, e: int) -> Option<TradeActivity> {
    if 0 <= e < tx.events.len() && tx.events@[e].description@ == "Trade"@ {
        match last_transfer_of(tx.transfers@, e) {
            Some(t) => {
                let row = tx.transfers@[t];
                if 0 <= row.to_account < tx.accounts.len() {
                    let account = tx.accounts@[row.to_account as int];
                    Some(TradeActivity {
                        event_id: EventId(e as i64),
                        market_id: MarketId(account.market_id),
                        user_email: account.owner,
                        amount_bought: Amount(row.amount, AssetId(account.asset_id)),
                    })
                } else {
                    None
                }
            },
            None => None,
        }
    } else {
        None
    }
}

/// The trades among the events up to `hi`, newest first, at most `limit` of them.
pub open spec fn trades_until(tx: &Ledger, hi: int, limit: nat) -> Seq<TradeActivity>
    decreases hi + 1,
{
    if hi < 0 || limit == 0 {
        Seq::empty()
    } else {
        match trade_of_event(tx, hi) {
            Some(t) => seq![t] + trades_until(tx, hi - 1, (limit - 1) as nat),
            None => trades_until(tx, hi - 1, limit),
        }
    }
}

/// The view of a trade, with the buyer's email as characters.
pub open spec fn activity_view(t: TradeActivity) -> (EventId, MarketId, Seq<char>, Amount) {
    (t.event_id, t.market_id, t.user_email@, t.amount_bought)
}

fn find_last_transfer(tx: &Ledger, e: i64) -> (r: Option<usize>)
    ensures
        match r {
            Some(t) => last_transfer_of(tx.transfers@, e as int) == Some(t as int) && t < tx.transfers.len(),
            None => last_transfer_of(tx.transfers@, e as int) is None,
        },
{
    let mut k = tx.transfers.len();
    assert(tx.transfers@.subrange(0, k as int) =~= tx.transfers@);
    while k > 0
        invariant
            k <= tx.transfers.len(),
            last_transfer_of(tx.transfers@, e as int) == last_transfer_of(tx.transfers@.subrange(0, k as int), e as int),
        decreases k,
    {
        proof {
            assert(tx.transfers@.subrange(0, k as int).drop_last() =~= tx.transfers@.subrange(0, k - 1));
        }
        if tx.transfers[k - 1].event_id == e {
            return Some(k - 1);
        }
        k = k - 1;
    }
    None
}

fn trade_of_event_exec(tx: &Ledger, e: usize) -> (r: Option<TradeActivity>)
    requires
        e < tx.events.len(),
        tx.events.len() <= i64::MAX,
    ensures
        match r {
            Some(t) => trade_of_event(tx, e as int) matches Some(u) && activity_view(t) == activity_view(u),
            None => trade_of_event(tx, e as int) is None,
        },
{
    if !str_eq(tx.events[e].description.as_str(), "Trade") {
        return None;
    }
    let t = match find_last_transfer(tx, e as i64) {
        Some(t) => t,
        None => return None,
    };
    let row = tx.transfers[t];
    if row.to_account < 0 || row.to_account as u64 >= tx.accounts.len() as u64 {
        return None;
    }
    let account = &tx.accounts[row.to_account as usize];
    Some(TradeActivity {
        event_id: EventId(e as i64),
        market_id: MarketId(account.market_id),
        user_email: account.owner.clone(),
        amount_bought: Amount(row.amount, AssetId(account.asset_id)),
    })
}

/// The trades of the ledger, newest first, from event `max_event_id` (or
/// the newest event) down, at most `limit` of them.
pub fn recent_trades(tx: &Ledger, max_event_id: Option<i64>, limit: usize) -> (r: Vec<TradeActivity>)
    requires
        tx.events.len() <= i64::MAX,
    ensures
        ({
            let hi = match max_event_id {
                Some(m) => if m < tx.events.len() { m as int } else { tx.events.len() - 1 },
                None => tx.events.len() - 1,
            };
            r@.map_values(|t: TradeActivity| activity_view(t)) == trades_until(tx, hi, limit as nat).map_values(
                |t: TradeActivity| activity_view(t),
            )
        }),
{
    let n = tx.events.len();
    // One past the newest event to look at.
    let top: usize = match max_event_id {
        Some(m) => if m < 0 {
            0
        } else if (m as u64) < (n as u64) {
            (m + 1) as usize
        } else {
            n
        },
        None => n,
    };
    let ghost hi = match max_event_id {
        Some(m) => if m < n { m as int } else { n - 1 },
        None => n - 1,
    };
    assert(trades_until(tx, top - 1, limit as nat) == trades_until(tx, hi, limit as nat)) by {
        if hi < 0 {
            assert(trades_until(tx, top - 1, limit as nat) =~= Seq::<TradeActivity>::empty());
        }
    }
    let mut r: Vec<TradeActivity> = Vec::new();
    let mut k = top;
    let mut left = limit;
    while k > 0 && left > 0
        invariant
            k <= top <= n,
            n == tx.events.len(),
            n <= i64::MAX,
            left <= limit,
            r@.map_values(|t: TradeActivity| activity_view(t)) + trades_until(tx, k - 1, left as nat).map_values(
                |t: TradeActivity| activity_view(t),
            ) == trades_until(tx, top - 1, limit as nat).map_values(|t: TradeActivity| activity_view(t)),
        decreases k,
    {
        let ghost before = r@;
        match trade_of_event_exec(tx, k - 1) {
            Some(t) => {
                let ghost u = trade_of_event(tx, k - 1).unwrap();
                r.push(t);
                proof {
                    assert(trades_until(tx, k - 1, left as nat) == seq![u] + trades_until(tx, k - 2, (left - 1) as nat));
                    assert(r@.map_values(|t: TradeActivity| activity_view(t)) =~= before.map_values(
                        |t: TradeActivity| activity_view(t),
                    ).push(activity_view(u)));
                    assert((seq![u] + trades_until(tx, k - 2, (left - 1) as nat)).map_values(
                        |t: TradeActivity| activity_view(t),
                    ) =~= seq![activity_view(u)] + trades_until(tx, k - 2, (left - 1) as nat).map_values(
                        |t: TradeActivity| activity_view(t),
                    ));
                }
                left = left - 1;
            },
            None => {},
        }
        k = k - 1;
    }
    proof {
        assert(trades_until(tx, k - 1, left as nat) =~= Seq::<TradeActivity>::empty());
    }
    r
}

/// The sum of the points balances of the given entries.
pub open spec fn points_sum(balances: Seq<(String, Balance)>) -> int
    decreases balances.len(),
{
    if balances.len() == 0 {
        0
    } else {
        points_sum(balances.drop_last()) + balances.last().1.points.0
    }
}

/// The sum of the points balances of the given entries, leaving out the system.
pub open spec fn points_sum_excluding_system(balances: Seq<(String, Balance)>) -> int
    decreases balances.len(),
{
    if balances.len() == 0 {
        0
    } else {
        points_sum_excluding_system(balances.drop_last()) + if balances.last().0@ == system_owner() {
            0
        } else {
            balances.last().1.points.0 as int
        }
    }
}

/// The position of the first amount of the given asset.
pub open spec fn position_of_asset(amounts: Seq<Amount>, asset: AssetId) -> Option<int>
    decreases amounts.len(),
{
    if amounts.len() == 0 {
        None
    } else {
        match position_of_asset(amounts.drop_last(), asset) {
            Some(k) => Some(k),
            None => if amounts.last().1 == asset {
                Some(amounts.len() - 1)
            } else {
                None
            },
        }
    }
}

/// The position of the entry of the given owner.
pub open spec fn position_of_owner(balances: Seq<(String, Balance)>, owner: Seq<char>) -> Option<int>
    decreases balances.len(),
{
    if balances.len() == 0 {
        None
    } else {
        match position_of_owner(balances.drop_last(), owner) {
            Some(k) => Some(k),
            None => if balances.last().0@ == owner {
                Some(balances.len() - 1)
            } else {
                None
            },
        }
    }
}

pub(crate) fn find_asset(amounts: &Vec<Amount>, asset: AssetId) -> (r: Option<usize>)
    ensures
        match r {
            Some(k) => position_of_asset(amounts@, asset) == Some(k as int) && k < amounts.len(),
            None => position_of_asset(amounts@, asset) is None,
        },
{
    let mut k: usize = 0;
    while k < amounts.len()
        invariant
            k <= amounts.len(),
            position_of_asset(amounts@.subrange(0, k as int), asset) is None,
        decreases amounts.len() - k,
    {
        proof {
            assert(amounts@.subrange(0, k + 1).drop_last() =~= amounts@.subrange(0, k as int));
        }
        if amounts[k].1 == asset {
            proof {
                lemma_position_prefix_asset(amounts@, asset, k as int + 1);
            }
            return Some(k);
        }
        k = k + 1;
    }
    assert(amounts@.subrange(0, k as int) =~= amounts@);
    None
}

proof fn lemma_position_prefix_asset(amounts: Seq<Amount>, asset: AssetId, n: int)
    requires
        0 <= n <= amounts.len(),
        position_of_asset(amounts.subrange(0, n), asset) is Some,
    ensures
        position_of_asset(amounts, asset) == position_of_asset(amounts.subrange(0, n), asset),
    decreases amounts.len() - n,
{
    if n < amounts.len() {
        assert(amounts.drop_last().subrange(0, n) =~= amounts.subrange(0, n));
        lemma_position_prefix_asset(amounts.drop_last(), asset, n);
    } else {
        assert(amounts.subrange(0, n) =~= amounts);
    }
}

proof fn lemma_position_prefix_owner(balances: Seq<(String, Balance)>, owner: Seq<char>, n: int)
    requires
        0 <= n <= balances.len(),
        position_of_owner(balances.subrange(0, n), owner) is Some,
    ensures
        position_of_owner(balances, owner) == position_of_owner(balances.subrange(0, n), owner),
    decreases balances.len() - n,
{
    if n < balances.len() {
        assert(balances.drop_last().subrange(0, n) =~= balances.subrange(0, n));
        lemma_position_prefix_owner(balances.drop_last(), owner, n);
    } else {
        assert(balances.subrange(0, n) =~= balances);
    }
}

pub(crate) fn find_owner(balances: &Vec<(String, Balance)>, owner: &str) -> (r: Option<usize>)
    ensures
        match r {
            Some(k) => position_of_owner(balances@, owner@) == Some(k as int) && k < balances.len(),
            None => position_of_owner(balances@, owner@) is None,
        },
{
    let mut k: usize = 0;
    while k < balances.len()
        invariant
            k <= balances.len(),
            position_of_owner(balances@.subrange(0, k as int), owner@) is None,
        decreases balances.len() - k,
    {
        proof {
            assert(balances@.subrange(0, k + 1).drop_last() =~= balances@.subrange(0, k as int));
        }
        if str_eq(balances[k].0.as_str(), owner) {
            proof {
                lemma_position_prefix_owner(balances@, owner@, k as int + 1);
            }
            return Some(k);
        }
        k = k + 1;
    }
    assert(balances@.subrange(0, k as int) =~= balances@);
    None
}

impl Market {
    /// Whether it is possible to trade in the market: it has not resolved,
    /// so no profits are recorded.
    pub fn is_open(&self) -> (r: bool)
        ensures
            r == (self.profits@.len() == 0),
    {
        self.profits.len() == 0
    }

    /// Return the amount of points deposited into this market.
    pub fn total_deposited(&self) -> (r: Amount)
        requires
            forall|i: int| 0 <= i < self.balances.len() ==> (#[trigger] self.balances@[i]).1.points.1 == AssetId(0),
            forall|k: int| 0 <= k <= self.balances.len() ==> i64::MIN <= #[trigger] points_sum(self.balances@.take(k)) <= i64::MAX,
        ensures
            r == Amount(points_sum(self.balances@) as i64, AssetId(0)),
    {
        let mut sum = AssetId::POINTS().zero();
        let mut i: usize = 0;
        while i < self.balances.len()
            invariant
                i <= self.balances.len(),
                forall|i: int| 0 <= i < self.balances.len() ==> (#[trigger] self.balances@[i]).1.points.1 == AssetId(0),
                forall|k: int| 0 <= k <= self.balances.len() ==> i64::MIN <= #[trigger] points_sum(self.balances@.take(k)) <= i64::MAX,
                sum == Amount(points_sum(self.balances@.take(i as int)) as i64, AssetId(0)),
            decreases self.balances.len() - i,
        {
            proof {
                assert(self.balances@.take(i + 1).drop_last() =~= self.balances@.take(i as int));
                assert(i64::MIN <= points_sum(self.balances@.take(i + 1)) <= i64::MAX);
            }
            sum = sum.add(self.balances[i].1.points);
            i = i + 1;
        }
        assert(self.balances@.take(i as int) =~= self.balances@);
        sum
    }

    /// Return the amount of points deposited into this market by participants
    /// other than the system.
    pub fn total_deposited_excluding_system(&self) -> (r: Amount)
        requires
            forall|i: int| 0 <= i < self.balances.len() ==> (#[trigger] self.balances@[i]).1.points.1 == AssetId(0),
            forall|k: int| 0 <= k <= self.balances.len() ==> i64::MIN <= #[trigger] points_sum_excluding_system(self.balances@.take(k)) <= i64::MAX,
        ensures
            r == Amount(points_sum_excluding_system(self.balances@) as i64, AssetId(0)),
    {
        let system = system_owner_string();
        let mut sum = AssetId::POINTS().zero();
        let mut i: usize = 0;
        while i < self.balances.len()
            invariant
                i <= self.balances.len(),
                system@ == system_owner(),
                forall|i: int| 0 <= i < self.balances.len() ==> (#[trigger] self.balances@[i]).1.points.1 == AssetId(0),
                forall|k: int| 0 <= k <= self.balances.len() ==> i64::MIN <= #[trigger] points_sum_excluding_system(self.balances@.take(k)) <= i64::MAX,
                sum == Amount(points_sum_excluding_system(self.balances@.take(i as int)) as i64, AssetId(0)),
            decreases self.balances.len() - i,
        {
            proof {
                assert(self.balances@.take(i + 1).drop_last() =~= self.balances@.take(i as int));
                assert(i64::MIN <= points_sum_excluding_system(self.balances@.take(i + 1)) <= i64::MAX);
            }
            if !str_eq(self.balances[i].0.as_str(), system.as_str()) {
                sum = sum.add(self.balances[i].1.points);
            }
            i = i + 1;
        }
        assert(self.balances@.take(i as int) =~= self.balances@);
        sum
    }

    /// The position of the system's entry among the balances: the pool of the
    /// automated market maker.
    pub fn pool_position(&self) -> (r: Option<usize>)
        ensures
            match r {
                Some(k) => position_of_owner(self.balances@, system_owner()) == Some(k as int) && k < self.balances.len(),
                None => position_of_owner(self.balances@, system_owner()) is None,
            },
    {
        let system = system_owner_string();
        find_owner(&self.balances, system.as_str())
    }

    /// The pool's side of a trade: the pool's balance of the asset sold to it
    /// after the sale, and its balance of the asset bought from it.
    ///
    /// `None` when the pool holds no balance of either asset, which means
    /// that it does not belong to this market.
    pub fn trade_pool_balances(&self, amount_in: Amount, min_out: Amount) -> (r: Option<(Amount, Amount)>)
        requires
            position_of_owner(self.balances@, system_owner()) is Some,
            ({
                let pool = self.balances@[position_of_owner(self.balances@, system_owner()).unwrap()].1;
                match position_of_asset(pool.outcomes@, amount_in.1) {
                    Some(k) => i64::MIN <= pool.outcomes@[k].0 + amount_in.0 <= i64::MAX,
                    None => true,
                }
            }),
        ensures
            ({
                let pool = self.balances@[position_of_owner(self.balances@, system_owner()).unwrap()].1;
                match (position_of_asset(pool.outcomes@, amount_in.1), position_of_asset(pool.outcomes@, min_out.1)) {
                    (Some(i), Some(j)) => r == Some((
                        Amount((pool.outcomes@[i].0 + amount_in.0) as i64, amount_in.1),
                        pool.outcomes@[j],
                    )),
                    _ => r is None,
                }
            }),
    {
        let p = self.pool_position().unwrap();
        let pool = &self.balances[p].1;
        let i = match find_asset(&pool.outcomes, amount_in.1) {
            Some(i) => i,
            None => return None,
        };
        let j = match find_asset(&pool.outcomes, min_out.1) {
            Some(j) => j,
            None => return None,
        };
        proof {
            lemma_position_asset_matches(pool.outcomes@, amount_in.1);
        }
        let q_i_prime = pool.outcomes[i].add(amount_in);
        Some((q_i_prime, pool.outcomes[j]))
    }
}

proof fn lemma_position_asset_matches(amounts: Seq<Amount>, asset: AssetId)
    ensures
        match position_of_asset(amounts, asset) {
            Some(k) => 0 <= k < amounts.len() && amounts[k].1 == asset,
            None => true,
        },
    decreases amounts.len(),
{
    if amounts.len() > 0 {
        lemma_position_asset_matches(amounts.drop_last(), asset);
    }
}

/// Settle a trade against the pool, given the pool's new balance of the
/// asset bought, in micros, as the market maker's pricing rule puts it.
///
/// The order fails when the pool cannot afford it (the new balance is below
/// zero) or when it would pay out less than `min_out`, the slippage
/// tolerance; otherwise it pays out what the pool's balance goes down by.
pub fn settle_trade(q_j: Amount, q_j_prime_micros: i64, min_out: Amount) -> (r: Option<Amount>)
    requires
        q_j.1 == min_out.1,
        q_j_prime_micros >= 0 ==> i64::MIN <= q_j.0 - q_j_prime_micros <= i64::MAX,
    ensures
        r == if q_j_prime_micros < 0 || q_j.0 - q_j_prime_micros < min_out.0 {
            None::<Amount>
        } else {
            Some(Amount((q_j.0 - q_j_prime_micros) as i64, min_out.1))
        },
{
    let q_j_prime = Amount(q_j_prime_micros, min_out.1);
    if q_j_prime.0 < 0 {
        return None;
    }
    let delta = q_j.sub(q_j_prime);
    if delta.0 >= min_out.0 {
        Some(delta)
    } else {
        None
    }
}



/// In a strictly increasing sequence, each element exceeds the first by at least its position.
proof fn lemma_increasing_spread(s: Seq<int>)
    requires
        s.len() > 0,
        forall|k1: int, k2: int| 0 <= k1 < k2 < s.len() ==> #[trigger] s[k1] < #[trigger] s[k2],
    ensures
        forall|q: int| 0 <= q < s.len() ==> #[trigger] s[q] >= s[0] + q,
    decreases s.len(),
{
    if s.len() > 1 {
        let t = s.drop_last();
        assert forall|k1: int, k2: int| 0 <= k1 < k2 < t.len() implies #[trigger] t[k1] < #[trigger] t[k2] by {
            assert(s[k1] < s[k2]);
        }
        lemma_increasing_spread(t);
        assert forall|q: int| 0 <= q < s.len() implies #[trigger] s[q] >= s[0] + q by {
            if q < s.len() - 1 {
                assert(t[q] == s[q]);
            } else {
                assert(t[q - 1] == s[q - 1]);
                assert(s[q - 1] < s[q]);
            }
        }
    }
}

/// Create a market with its outcomes, and fund its automated market maker:
/// the system deposits `fund_micros` of newly minted points into it.
///
/// Given room for the rows, this succeeds exactly when the system's points
/// account can go down by the funding without leaving `i64`.
pub fn create_market(tx: &mut Ledger, market: &MarketConfig) -> (r: Result<MarketId, LedgerError>)
    requires
        old(tx).wf(),
        forall|i: int| 0 <= i < old(tx).markets.len() ==> (#[trigger] old(tx).markets@[i]).slug@ != market.slug@,
        market.fund_micros > 0,
    ensures
        final(tx).wf(),
        old(tx).markets.len() <= final(tx).markets.len(),
        final(tx).markets@.subrange(0, old(tx).markets.len() as int) == old(tx).markets@,
        match r {
            Ok(id) => {
                &&& id.0 == old(tx).markets.len() + 1
                &&& final(tx).markets@.drop_last() == old(tx).markets@
                &&& final(tx).markets@.len() == old(tx).markets@.len() + 1
                &&& final(tx).markets@.last().slug@ == market.slug@
                &&& final(tx).markets@.last().title@ == market.title@
                &&& final(tx).markets@.last().description@ == market.description@
                &&& final(tx).markets@.last().kind == market.kind
                &&& final(tx).markets@.last().opens_at == market.opens_at
                &&& final(tx).markets@.last().closes_at == market.closes_at
                &&& final(tx).events.len() == old(tx).events.len() + 1
                &&& final(tx).accounts.len() <= old(tx).accounts.len() + 2 + 2 * market.outcomes.len()
                &&& final(tx).balances@[0] == old(tx).balances@[0] - market.fund_micros
                &&& final(tx).outcomes@.subrange(0, old(tx).outcomes.len() as int) == old(tx).outcomes@
                &&& final(tx).outcomes.len() == old(tx).outcomes.len() + market.outcomes.len()
                &&& forall|k: int| 0 <= k < market.outcomes.len() ==> {
                    &&& (#[trigger] final(tx).outcomes@[old(tx).outcomes.len() + k]).market_id == id.0
                    &&& final(tx).outcomes@[old(tx).outcomes.len() + k].value@ == market.outcomes@[k]@
                }
                &&& forall|m: int, a: int, o: Seq<char>| #[trigger] final(tx).balance_of(m, a, o)
                    == old(tx).balance_of(m, a, o) + deposit_delta(
                    id.0 as int,
                    final(tx).outcome_ids(id.0 as int),
                    market.fund_micros as int,
                    system_owner(),
                    m,
                    a,
                    o,
                )
            },
            Err(_) => true,
        },
        old(tx).markets.len() + 2 < i64::MAX && old(tx).outcomes.len() + market.outcomes.len() + 2 < i64::MAX
            && old(tx).events.len() < i64::MAX && old(tx).accounts.len() + 2 + 2 * market.outcomes.len() <= i64::MAX
            ==> (r is Ok <==> i64::MIN <= old(tx).balances@[0] - market.fund_micros),
{
    let ghost t0 = *tx;
    let market_id = match tx.create_market(
        market.slug.as_str(),
        market.kind,
        market.title.as_str(),
        market.description.as_str(),
        market.opens_at,
        market.closes_at,
    ) {
        Ok(id) => id,
        Err(e) => {
            assert(tx.markets@.subrange(0, old(tx).markets.len() as int) =~= old(tx).markets@);
            return Err(e);
        },
    };
    let ghost t1 = *tx;
    assert(tx.markets@.subrange(0, old(tx).markets.len() as int) =~= old(tx).markets@);
    let mut k: usize = 0;
    while k < market.outcomes.len()
        invariant
            tx.wf(),
            t0.wf(),
            t1.wf(),
            market_id == t0.markets.len() + 1,
            t0 == *old(tx),
            t1.markets@.len() == t0.markets@.len() + 1,
            t1.markets@.subrange(0, t0.markets.len() as int) == t0.markets@,
            t1.outcomes@ == t0.outcomes@,
            k <= market.outcomes.len(),
            tx.markets@ == t1.markets@,
            tx.accounts@ == t0.accounts@,
            tx.balances@ == t0.balances@,
            tx.events@ == t0.events@,
            tx.transfers@ == t0.transfers@,
            tx.profits@ == t0.profits@,
            tx.outcomes@.subrange(0, t0.outcomes.len() as int) == t0.outcomes@,
            tx.outcomes.len() == t0.outcomes.len() + k,
            forall|q: int| 0 <= q < k ==> {
                &&& (#[trigger] tx.outcomes@[t0.outcomes.len() + q]).market_id == market_id
                &&& tx.outcomes@[t0.outcomes.len() + q].value@ == market.outcomes@[q]@
            },
        decreases market.outcomes.len() - k,
    {
        let ghost before = tx.outcomes@;
        tx.create_outcome(market_id, market.outcomes[k].as_str())?;
        proof {
            assert(tx.outcomes@.subrange(0, t0.outcomes.len() as int) =~= before.subrange(0, t0.outcomes.len() as int));
            assert forall|q: int| 0 <= q < k + 1 implies {
                &&& (#[trigger] tx.outcomes@[t0.outcomes.len() + q]).market_id == market_id
                &&& tx.outcomes@[t0.outcomes.len() + q].value@ == market.outcomes@[q]@
            } by {
                if q < k {
                    assert(tx.outcomes@[t0.outcomes.len() + q] == before[t0.outcomes.len() + q]);
                }
            }
        }
        k = k + 1;
    }
    let ghost t2 = *tx;
    let fund_amount = AssetId::POINTS().micros(market.fund_micros);
    let created = match get_market_by_slug(tx, market.slug.as_str()) {
        Ok(Some(m)) => m,
        _ => {
            // The market was just created under this slug.
            assert(tx.markets@[market_id - 1].slug@ == market.slug@);
            return Err(LedgerError::Full);
        },
    };
    proof {
        assert(created.id.0 == market_id) by {
            if created.id.0 != market_id {
                assert(tx.markets@[created.id.0 - 1].slug@ == tx.markets@[market_id - 1].slug@);
            }
        }
        // No account belongs to the new market or to its new outcomes yet.
        let ids = created.outcome_ids();
        lemma_outcome_ids(tx.outcomes@, market_id as int);
        assert forall|q: int| 0 <= q < ids.len() implies #[trigger] ids[q] > t0.outcomes.len() by {
            assert(ids[q] == tx.outcome_ids(market_id as int)[q]);
            let x = ids[q];
            if x <= t0.outcomes.len() {
                assert(tx.outcomes@[x - 1] == t0.outcomes@[x - 1]);
            }
        }
        let system = system_owner();
        assert forall|j: int| 0 <= j < tx.accounts.len() implies (#[trigger] tx.accounts@[j]).market_id <= t0.markets.len()
            && tx.accounts@[j].asset_id <= t0.outcomes.len() by {
            assert(t0.schema_ok(t0.accounts@[j].market_id as int, t0.accounts@[j].asset_id as int));
        }
        assert(tx.account_index(market_id as int, 0, system) is None);
        assert forall|q: int| 0 <= q < ids.len() implies tx.account_index(0, #[trigger] ids[q], system) is None
            && tx.account_index(market_id as int, ids[q], system) is None by {}
        lemma_find_account(tx.accounts@, 0, 0, system, 0);
        if ids.len() > 0 {
            lemma_increasing_spread(ids);
            assert(ids[ids.len() - 1] <= tx.outcomes.len());
        }
        assert(ids.len() <= market.outcomes.len());
        assert(created.outcomes.len() == ids.len());
        let fund = market.fund_micros as int;
        assert(deposit_allowed(tx, market_id as int, ids, fund, system) <==> i64::MIN <= t0.balances@[0] - fund);
    }
    let system = system_owner_string();
    let ghost t3 = *tx;
    let r = create_deposit(tx, &created, fund_amount, system.as_str());
    match r {
        Ok(()) => {
            proof {
                let ids = created.outcome_ids();
                assert(!ids.contains(0)) by {
                    if ids.contains(0) {
                        let q = choose|q: int| 0 <= q < ids.len() && ids[q] == 0;
                        assert(ids[q] > t0.outcomes.len());
                    }
                }
                lemma_find_account(t3.accounts@, 0, 0, system_owner(), 0);
                lemma_find_account(tx.accounts@, 0, 0, system_owner(), 0);
                assert(tx.balance_of(0, 0, system_owner()) == t3.balance_of(0, 0, system_owner())
                    + deposit_delta(market_id as int, ids, market.fund_micros as int, system_owner(), 0, 0, system_owner()));
            }
            Ok(MarketId(market_id))
        },
        Err(e) => Err(e),
    }
}


/// Whether a market with this slug is among the first `n` markets.
pub open spec fn has_market_slug(tx: &Ledger, slug: Seq<char>) -> bool {
    exists|i: int| 0 <= i < tx.markets.len() && (#[trigger] tx.markets@[i]).slug@ == slug
}

/// Whether an earlier entry of the list has the same slug as entry `k`.
pub open spec fn slug_repeated(markets: Seq<MarketConfig>, k: int) -> bool {
    exists|q: int| 0 <= q < k && markets[q].slug@ == markets[k].slug@
}

/// Entry `k` of the list either funds its market, or will be skipped because
/// its slug is taken.
pub open spec fn config_fundable(tx: &Ledger, markets: Seq<MarketConfig>, k: int) -> bool {
    markets[k].fund_micros > 0 || has_market_slug(tx, markets[k].slug@) || slug_repeated(markets, k)
}

/// The configurations whose markets `ensure_markets` creates, in order:
/// those whose slug is neither in the ledger nor taken by an earlier entry.
pub open spec fn fresh_configs(tx: &Ledger, configs: Seq<MarketConfig>) -> Seq<MarketConfig>
    decreases configs.len(),
{
    if configs.len() == 0 {
        Seq::empty()
    } else {
        let rest = fresh_configs(tx, configs.drop_last());
        if has_market_slug(tx, configs.last().slug@) || slug_repeated(configs, configs.len() - 1) {
            rest
        } else {
            rest.push(configs.last())
        }
    }
}

/// The points that funding the markets of `configs` takes.
pub open spec fn fund_total(configs: Seq<MarketConfig>) -> int
    decreases configs.len(),
{
    if configs.len() == 0 {
        0
    } else {
        fund_total(configs.drop_last()) + configs.last().fund_micros
    }
}

/// The number of outcomes of the markets of `configs`.
pub open spec fn outcome_total(configs: Seq<MarketConfig>) -> int
    decreases configs.len(),
{
    if configs.len() == 0 {
        0
    } else {
        outcome_total(configs.drop_last()) + configs.last().outcomes.len()
    }
}

/// Whether the ledger has room for the rows that creating and funding the
/// markets of `configs` may take: a market, its outcomes, an event, and up to
/// two accounts for the points and two for every outcome.
pub open spec fn room_for_markets(tx: &Ledger, configs: Seq<MarketConfig>) -> bool {
    &&& tx.markets.len() + configs.len() + 2 < i64::MAX
    &&& tx.outcomes.len() + outcome_total(configs) + 2 < i64::MAX
    &&& tx.events.len() + configs.len() < i64::MAX
    &&& tx.accounts.len() + 2 * configs.len() + 2 * outcome_total(configs) <= i64::MAX
}

pub(crate) proof fn lemma_totals_push(s: Seq<MarketConfig>, x: MarketConfig)
    ensures
        fund_total(s.push(x)) == fund_total(s) + x.fund_micros,
        outcome_total(s.push(x)) == outcome_total(s) + x.outcomes.len(),
{
    assert(s.push(x).drop_last() =~= s);
}

pub(crate) proof fn lemma_totals_take(s: Seq<MarketConfig>, j: int)
    requires
        0 <= j <= s.len(),
    ensures
        (forall|q: int| 0 <= q < s.len() ==> (#[trigger] s[q]).fund_micros > 0) ==> fund_total(s.take(j)) <= fund_total(s),
        outcome_total(s.take(j)) <= outcome_total(s),
    decreases s.len(),
{
    if j < s.len() {
        let d = s.drop_last();
        assert(s.take(j) =~= d.take(j));
        lemma_totals_take(d, j);
        if forall|q: int| 0 <= q < s.len() ==> (#[trigger] s[q]).fund_micros > 0 {
            assert forall|q: int| 0 <= q < d.len() implies (#[trigger] d[q]).fund_micros > 0 by {
                assert(d[q] == s[q]);
            }
            assert(s[s.len() - 1].fund_micros > 0);
        }
    } else {
        assert(s.take(j) =~= s);
    }
}

/// The markets created for the first `k` configurations are the first of
/// those created for all of them.
pub(crate) proof fn lemma_fresh_prefix(tx: &Ledger, c: Seq<MarketConfig>, k: int)
    requires
        0 <= k <= c.len(),
    ensures
        fresh_configs(tx, c.take(k)).len() <= fresh_configs(tx, c).len(),
        fresh_configs(tx, c.take(k)) == fresh_configs(tx, c).take(fresh_configs(tx, c.take(k)).len() as int),
    decreases c.len(),
{
    if k < c.len() {
        let d = c.drop_last();
        assert(c.take(k) =~= d.take(k));
        lemma_fresh_prefix(tx, d, k);
        let fd = fresh_configs(tx, d);
        let fc = fresh_configs(tx, c);
        let fk = fresh_configs(tx, c.take(k));
        assert(fc.take(fk.len() as int) =~= fd.take(fk.len() as int));
    } else {
        assert(c.take(k) =~= c);
        let f = fresh_configs(tx, c);
        assert(f.take(f.len() as int) =~= f);
    }
}

/// Every market that `ensure_markets` creates is funded.
proof fn lemma_fresh_funded(tx: &Ledger, c: Seq<MarketConfig>)
    requires
        forall|k: int| 0 <= k < c.len() ==> #[trigger] config_fundable(tx, c, k),
    ensures
        forall|j: int| 0 <= j < fresh_configs(tx, c).len() ==> (#[trigger] fresh_configs(tx, c)[j]).fund_micros > 0,
    decreases c.len(),
{
    if c.len() > 0 {
        let d = c.drop_last();
        assert forall|k: int| 0 <= k < d.len() implies #[trigger] config_fundable(tx, d, k) by {
            assert(config_fundable(tx, c, k));
            assert(d[k] == c[k]);
            if slug_repeated(c, k) {
                let q = choose|q: int| 0 <= q < k && c[q].slug@ == c[k].slug@;
                assert(d[q] == c[q]);
            }
        }
        lemma_fresh_funded(tx, d);
        assert(config_fundable(tx, c, c.len() - 1));
        assert(c[c.len() - 1] == c.last());
    }
}

/// The market row is what the configuration describes.
pub open spec fn row_of(row: MarketRow, config: MarketConfig) -> bool {
    &&& row.slug@ == config.slug@
    &&& row.title@ == config.title@
    &&& row.description@ == config.description@
    &&& row.kind == config.kind
    &&& row.opens_at == config.opens_at
    &&& row.closes_at == config.closes_at
}

/// The outcomes of market `id` are those of the configuration, in order.
pub open spec fn outcomes_of(tx: &Ledger, id: int, config: MarketConfig) -> bool {
    &&& tx.outcome_ids(id).len() == config.outcomes.len()
    &&& forall|k: int| 0 <= k < config.outcomes.len() ==> tx.outcomes@[(#[trigger] tx.outcome_ids(id)[k]) - 1].value@
        == config.outcomes@[k]@
}

/// How the system's funding of the markets created from `configs`, with ids
/// from `first` on, changes the balance of a key.
pub open spec fn funding_delta(tx: &Ledger, first: int, configs: Seq<MarketConfig>, km: int, ka: int, ko: Seq<char>) -> int
    decreases configs.len(),
{
    if configs.len() == 0 {
        0
    } else {
        let id = first + configs.len() - 1;
        funding_delta(tx, first, configs.drop_last(), km, ka, ko) + deposit_delta(
            id,
            tx.outcome_ids(id),
            configs.last().fund_micros as int,
            system_owner(),
            km,
            ka,
            ko,
        )
    }
}

proof fn lemma_funding_stable(t1: &Ledger, t2: &Ledger, first: int, configs: Seq<MarketConfig>)
    requires
        forall|q: int| 0 <= q < configs.len() ==> #[trigger] t2.outcome_ids(first + q) == t1.outcome_ids(first + q),
    ensures
        forall|km: int, ka: int, ko: Seq<char>| #[trigger] funding_delta(t2, first, configs, km, ka, ko)
            == funding_delta(t1, first, configs, km, ka, ko),
    decreases configs.len(),
{
    if configs.len() > 0 {
        let rest = configs.drop_last();
        assert forall|q: int| 0 <= q < rest.len() implies #[trigger] t2.outcome_ids(first + q) == t1.outcome_ids(first + q) by {
            assert(t2.outcome_ids(first + q) == t1.outcome_ids(first + q));
        }
        lemma_funding_stable(t1, t2, first, rest);
        let id = first + configs.len() - 1;
        assert(t2.outcome_ids(first + (configs.len() - 1)) == t1.outcome_ids(first + (configs.len() - 1)));
        assert(t2.outcome_ids(id) == t1.outcome_ids(id));
        assert forall|km: int, ka: int, ko: Seq<char>| #[trigger] funding_delta(t2, first, configs, km, ka, ko)
            == funding_delta(t1, first, configs, km, ka, ko) by {
            assert(funding_delta(t2, first, rest, km, ka, ko) == funding_delta(t1, first, rest, km, ka, ko));
        }
    }
}

pub proof fn lemma_fresh_from_configs(tx: &Ledger, configs: Seq<MarketConfig>)
    ensures
        forall|j: int| 0 <= j < fresh_configs(tx, configs).len() ==> exists|q: int| 0 <= q < configs.len()
            && configs[q].slug@ == (#[trigger] fresh_configs(tx, configs)[j]).slug@,
    decreases configs.len(),
{
    if configs.len() > 0 {
        let rest = configs.drop_last();
        lemma_fresh_from_configs(tx, rest);
        let f = fresh_configs(tx, configs);
        let fr = fresh_configs(tx, rest);
        assert forall|j: int| 0 <= j < f.len() implies exists|q: int| 0 <= q < configs.len()
            && configs[q].slug@ == (#[trigger] f[j]).slug@ by {
            if j < fr.len() {
                assert(f[j] == fr[j]);
                let q = choose|q: int| 0 <= q < rest.len() && rest[q].slug@ == fr[j].slug@;
                assert(configs[q] == rest[q]);
            } else {
                assert(f[j] == configs.last());
                assert(configs[configs.len() - 1] == configs.last());
            }
        }
    }
}

/// Create the configured markets if they don't yet exist.
///
/// A market whose slug is taken, in the ledger or by an earlier entry of
/// the list, is skipped; the others are created in order, with their
/// outcomes, and funded as `create_market` does.
///
/// Given room for the rows, this succeeds exactly when the system's points
/// account can fund all the new markets without leaving `i64`. The markets
/// created before a refused one stay.
pub fn ensure_markets(tx: &mut Ledger, markets: &[MarketConfig]) -> (r: Result<(), LedgerError>)
    requires
        old(tx).wf(),
        forall|k: int| 0 <= k < markets@.len() ==> #[trigger] config_fundable(old(tx), markets@, k),
    ensures
        final(tx).wf(),
        final(tx).markets@.subrange(0, old(tx).markets.len() as int) == old(tx).markets@,
        r is Ok ==> forall|k: int| 0 <= k < markets@.len() ==> #[trigger] has_market_slug(final(tx), markets@[k].slug@),
        r is Ok ==> {
            let fresh = fresh_configs(old(tx), markets@);
            let first = old(tx).markets.len() + 1;
            &&& final(tx).markets.len() == old(tx).markets.len() + fresh.len()
            &&& forall|q: int| 0 <= q < fresh.len() ==> row_of(#[trigger] final(tx).markets@[old(tx).markets.len() + q], fresh[q])
            &&& forall|q: int| 0 <= q < fresh.len() ==> outcomes_of(final(tx), first + q, #[trigger] fresh[q])
            &&& forall|km: int, ka: int, ko: Seq<char>| #[trigger] final(tx).balance_of(km, ka, ko)
                == old(tx).balance_of(km, ka, ko) + funding_delta(final(tx), first, fresh, km, ka, ko)
        },
        room_for_markets(old(tx), fresh_configs(old(tx), markets@)) ==> (r is Ok <==> i64::MIN <= old(tx).balances@[0]
            - fund_total(fresh_configs(old(tx), markets@))),
{
    let ghost first = old(tx).markets.len() + 1;
    let mut k: usize = 0;
    proof {
        assert(markets@.take(0) =~= Seq::<MarketConfig>::empty());
        lemma_fresh_funded(old(tx), markets@);
    }
    while k < markets.len()
        invariant
            tx.wf(),
            old(tx).wf(),
            k <= markets@.len(),
            first == old(tx).markets.len() + 1,
            forall|k: int| 0 <= k < markets@.len() ==> #[trigger] config_fundable(old(tx), markets@, k),
            old(tx).markets.len() <= tx.markets.len(),
            tx.markets@.subrange(0, old(tx).markets.len() as int) == old(tx).markets@,
            forall|q: int| 0 <= q < k ==> #[trigger] has_market_slug(tx, markets@[q].slug@),
            ({
                let fresh = fresh_configs(old(tx), markets@.take(k as int));
                &&& tx.markets.len() == old(tx).markets.len() + fresh.len()
                &&& forall|q: int| 0 <= q < fresh.len() ==> row_of(#[trigger] tx.markets@[old(tx).markets.len() + q], fresh[q])
                &&& forall|q: int| 0 <= q < fresh.len() ==> outcomes_of(tx, first + q, #[trigger] fresh[q])
                &&& forall|km: int, ka: int, ko: Seq<char>| #[trigger] tx.balance_of(km, ka, ko)
                    == old(tx).balance_of(km, ka, ko) + funding_delta(tx, first, fresh, km, ka, ko)
                &&& tx.events.len() == old(tx).events.len() + fresh.len()
                &&& tx.outcomes.len() == old(tx).outcomes.len() + outcome_total(fresh)
                &&& tx.accounts.len() <= old(tx).accounts.len() + 2 * fresh.len() + 2 * outcome_total(fresh)
                &&& tx.balances@[0] == old(tx).balances@[0] - fund_total(fresh)
            }),
            forall|j: int| 0 <= j < fresh_configs(old(tx), markets@).len()
                ==> (#[trigger] fresh_configs(old(tx), markets@)[j]).fund_micros > 0,
        decreases markets@.len() - k,
    {
        let config = &markets[k];
        let ghost fresh = fresh_configs(old(tx), markets@.take(k as int));
        proof {
            assert(markets@.take(k + 1).drop_last() =~= markets@.take(k as int));
            assert(markets@.take(k + 1).last() == markets@[k as int]);
            assert(slug_repeated(markets@.take(k + 1), k as int) == slug_repeated(markets@, k as int)) by {
                if slug_repeated(markets@, k as int) {
                    let q = choose|q: int| 0 <= q < k && markets@[q].slug@ == markets@[k as int].slug@;
                    assert(markets@.take(k + 1)[q] == markets@[q]);
                }
                let t = markets@.take(k + 1);
                if slug_repeated(t, k as int) {
                    let q = choose|q: int| 0 <= q < k && (#[trigger] t[q]).slug@ == t[k as int].slug@;
                    assert(t[q] == markets@[q]);
                }
            }
            lemma_fresh_from_configs(old(tx), markets@.take(k as int));
        }
        let exists = match get_market_by_slug(tx, config.slug.as_str()) {
            Ok(found) => found.is_some(),
            Err(e) => return Err(e),
        };
        proof {
            // The slug is taken exactly when it was in the ledger or an earlier entry had it.
            if has_market_slug(tx, config.slug@) {
                let i = choose|i: int| 0 <= i < tx.markets.len() && (#[trigger] tx.markets@[i]).slug@ == config.slug@;
                if i < old(tx).markets.len() {
                    assert(tx.markets@[i] == tx.markets@.subrange(0, old(tx).markets.len() as int)[i]);
                    assert(has_market_slug(old(tx), config.slug@));
                } else {
                    let j = i - old(tx).markets.len();
                    assert(row_of(tx.markets@[old(tx).markets.len() + j], fresh[j]));
                    let q = choose|q: int| 0 <= q < markets@.take(k as int).len()
                        && markets@.take(k as int)[q].slug@ == (#[trigger] fresh[j]).slug@;
                    assert(markets@.take(k as int)[q] == markets@[q]);
                    assert(slug_repeated(markets@, k as int));
                }
            } else {
                assert(!has_market_slug(old(tx), config.slug@)) by {
                    if has_market_slug(old(tx), config.slug@) {
                        let i = choose|i: int| 0 <= i < old(tx).markets.len() && (#[trigger] old(tx).markets@[i]).slug@ == config.slug@;
                        assert(tx.markets@[i] == tx.markets@.subrange(0, old(tx).markets.len() as int)[i]);
                    }
                }
                assert(!slug_repeated(markets@, k as int)) by {
                    if slug_repeated(markets@, k as int) {
                        let q = choose|q: int| 0 <= q < k && markets@[q].slug@ == markets@[k as int].slug@;
                        assert(has_market_slug(tx, markets@[q].slug@));
                    }
                }
            }
            assert(exists == has_market_slug(tx, config.slug@)) by {
                if exists {
                } else {
                    if has_market_slug(tx, config.slug@) {
                        let i = choose|i: int| 0 <= i < tx.markets.len() && (#[trigger] tx.markets@[i]).slug@ == config.slug@;
                        assert(tx.markets@[i].slug@ == config.slug@);
                    }
                }
            }
        }
        if !exists {
            proof {
                assert(config_fundable(old(tx), markets@, k as int));
                assert(fresh_configs(old(tx), markets@.take(k + 1)) == fresh.push(markets@[k as int]));
            }
            let ghost before = *tx;
            proof {
                let all = fresh_configs(old(tx), markets@);
                let fresh2 = fresh.push(markets@[k as int]);
                lemma_fresh_prefix(old(tx), markets@, k + 1);
                lemma_totals_take(all, fresh2.len() as int);
                lemma_totals_push(fresh, markets@[k as int]);
                assert(all.take(fresh2.len() as int) == fresh2);
            }
            match create_market(tx, config) {
                Ok(_) => {},
                Err(e) => {
                    assert(tx.markets@.subrange(0, old(tx).markets.len() as int) =~= before.markets@.subrange(0, old(tx).markets.len() as int));
                    return Err(e);
                },
            }
            proof {
                let id = before.markets.len() + 1;
                let n0 = before.outcomes.len() as int;
                assert(tx.markets@.subrange(0, old(tx).markets.len() as int) =~= before.markets@.subrange(0, old(tx).markets.len() as int));
                assert forall|q: int| 0 <= q < k + 1 implies #[trigger] has_market_slug(tx, markets@[q].slug@) by {
                    if q < k {
                        assert(has_market_slug(&before, markets@[q].slug@));
                        let i = choose|i: int| 0 <= i < before.markets.len() && (#[trigger] before.markets@[i]).slug@ == markets@[q].slug@;
                        assert(tx.markets@[i] == before.markets@[i]);
                    } else {
                        assert(tx.markets@[tx.markets.len() - 1].slug@ == markets@[q].slug@);
                    }
                }
                // The outcomes of the markets created before are as they were;
                // the new market's are the rows just added.
                assert forall|j: int| 0 <= j < n0 implies (#[trigger] tx.outcomes@[j]).market_id != id by {
                    assert(tx.outcomes@[j] == tx.outcomes@.subrange(0, n0)[j]);
                    assert(before.outcomes@[j].market_id <= before.markets.len());
                }
                assert forall|j: int| n0 <= j < tx.outcomes.len() implies (#[trigger] tx.outcomes@[j]).market_id == id by {
                    let kk = j - n0;
                    assert(tx.outcomes@[before.outcomes.len() + kk].market_id == id);
                }
                lemma_outcome_ids_append_own(tx.outcomes@, n0, id);
                let fresh2 = fresh.push(markets@[k as int]);
                assert forall|q: int| 0 <= q < fresh.len() implies #[trigger] tx.outcome_ids(first + q) == before.outcome_ids(first + q) by {
                    assert forall|j: int| n0 <= j < tx.outcomes.len() implies (#[trigger] tx.outcomes@[j]).market_id != first + q by {
                        assert(tx.outcomes@[n0 + (j - n0)].market_id == id);
                    }
                    lemma_outcome_ids_append_other(tx.outcomes@, n0, first + q);
                    assert(tx.outcomes@.subrange(0, n0) == before.outcomes@);
                }
                lemma_funding_stable(&before, tx, first, fresh);
                assert forall|q: int| 0 <= q < fresh2.len() implies row_of(#[trigger] tx.markets@[old(tx).markets.len() + q], fresh2[q]) by {
                    if q < fresh.len() {
                        assert(tx.markets@[old(tx).markets.len() + q] == before.markets@[old(tx).markets.len() + q]);
                    }
                }
                assert forall|q: int| 0 <= q < fresh2.len() implies outcomes_of(tx, first + q, #[trigger] fresh2[q]) by {
                    if q < fresh.len() {
                        assert(outcomes_of(&before, first + q, fresh[q]));
                        assert(tx.outcome_ids(first + q) == before.outcome_ids(first + q));
                        assert forall|kk: int| 0 <= kk < fresh[q].outcomes.len() implies tx.outcomes@[(#[trigger] tx.outcome_ids(first + q)[kk]) - 1].value@
                            == fresh[q].outcomes@[kk]@ by {
                            let x = before.outcome_ids(first + q)[kk];
                            lemma_outcome_ids(before.outcomes@, first + q);
                            assert(tx.outcomes@[x - 1] == tx.outcomes@.subrange(0, n0)[x - 1]);
                        }
                    } else {
                        assert(first + q == id);
                        assert forall|kk: int| 0 <= kk < markets@[k as int].outcomes.len() implies tx.outcomes@[(#[trigger] tx.outcome_ids(id)[kk]) - 1].value@
                            == markets@[k as int].outcomes@[kk]@ by {
                            assert(tx.outcome_ids(id)[kk] == n0 + 1 + kk);
                            assert(tx.outcomes@[before.outcomes.len() + kk].value@ == markets@[k as int].outcomes@[kk]@);
                        }
                    }
                }
                assert forall|km: int, ka: int, ko: Seq<char>| #[trigger] tx.balance_of(km, ka, ko)
                    == old(tx).balance_of(km, ka, ko) + funding_delta(tx, first, fresh2, km, ka, ko) by {
                    assert(fresh2.drop_last() =~= fresh);
                    assert(funding_delta(tx, first, fresh, km, ka, ko) == funding_delta(&before, first, fresh, km, ka, ko));
                }
            }
        } else {
            proof {
                assert(fresh_configs(old(tx), markets@.take(k + 1)) == fresh);
                assert(has_market_slug(tx, markets@[k as int].slug@));
                assert forall|q: int| 0 <= q < k + 1 implies #[trigger] has_market_slug(tx, markets@[q].slug@) by {}
            }
        }
        k = k + 1;
    }
    proof {
        assert(markets@.take(k as int) =~= markets@);
    }
    Ok(())
}


/// How collecting the deposits of the given entries into the pool changes the
/// balance of a key: every owner but the system moves all points it holds in
/// market `m` to the system's points account of the market.
pub open spec fn collect_delta(entries: Seq<(String, Balance)>, m: int, km: int, ka: int, ko: Seq<char>) -> int
    decreases entries.len(),
{
    if entries.len() == 0 {
        0
    } else {
        let e = entries.last();
        collect_delta(entries.drop_last(), m, km, ka, ko) + if e.0@ == system_owner() {
            0
        } else {
            (if km == m && ka == 0 && ko == e.0@ {
                -e.1.points.0
            } else {
                0
            }) + (if km == m && ka == 0 && ko == system_owner() {
                e.1.points.0 as int
            } else {
                0
            })
        }
    }
}

/// How paying out the given entries changes the balance of a key: every
/// owner, the system included, receives one point per share of the winning
/// outcome (position `w`), from the system's points account of market `m`
/// into the owner's global points account.
pub open spec fn payout_delta(entries: Seq<(String, Balance)>, m: int, w: int, km: int, ka: int, ko: Seq<char>) -> int
    decreases entries.len(),
{
    if entries.len() == 0 {
        0
    } else {
        let e = entries.last();
        payout_delta(entries.drop_last(), m, w, km, ka, ko) + (if km == m && ka == 0 && ko == system_owner() {
            -e.1.outcomes@[w].0
        } else {
            0
        }) + (if km == 0 && ka == 0 && ko == e.0@ {
            e.1.outcomes@[w].0 as int
        } else {
            0
        })
    }
}

/// Whether the balance of the account with this key may become `v`: it
/// fits in an `i64` and lies within the bounds the account has, or gets
/// with `constraint`.
pub open spec fn balance_allowed(tx: &Ledger, m: int, a: int, o: Seq<char>, constraint: AccountConstraint, v: int) -> bool {
    &&& i64::MIN <= v <= i64::MAX
    &&& within_bounds(bounds_for(tx, m, a, o, constraint).0, bounds_for(tx, m, a, o, constraint).1, v)
}

/// Whether collecting the points of entry `i` into the pool of market `m`
/// keeps both accounts within bounds, after the entries before it.
pub open spec fn collect_allowed(tx: &Ledger, entries: Seq<(String, Balance)>, m: int, i: int) -> bool {
    let o = entries[i].0@;
    let p = entries[i].1.points.0 as int;
    let sys = system_owner();
    let pos = AccountConstraint::Positive;
    o != sys ==> {
        &&& balance_allowed(tx, m, 0, o, pos, tx.balance_of(m, 0, o) + collect_delta(entries.take(i), m, m, 0, o) - p)
        &&& balance_allowed(tx, m, 0, sys, pos, tx.balance_of(m, 0, sys) + collect_delta(entries.take(i), m, m, 0, sys) + p)
    }
}

/// Whether paying out the winning shares (position `w`) of entry `i` from
/// the pool of market `m` keeps both accounts within bounds, after all
/// points were collected and the entries before it were paid.
pub open spec fn payout_allowed(tx: &Ledger, entries: Seq<(String, Balance)>, m: int, w: int, i: int) -> bool {
    let o = entries[i].0@;
    let s = entries[i].1.outcomes@[w].0 as int;
    let sys = system_owner();
    let pos = AccountConstraint::Positive;
    &&& balance_allowed(
        tx,
        m,
        0,
        sys,
        pos,
        tx.balance_of(m, 0, sys) + collect_delta(entries, m, m, 0, sys) + payout_delta(entries.take(i), m, w, m, 0, sys) - s,
    )
    &&& balance_allowed(
        tx,
        0,
        0,
        o,
        pos,
        tx.balance_of(0, 0, o) + collect_delta(entries, m, 0, 0, o) + payout_delta(entries.take(i), m, w, 0, 0, o) + s,
    )
}

/// Whether every transfer of resolving market `m` to the outcome at
/// position `w` keeps its accounts within bounds and `i64`.
pub open spec fn resolution_allowed(tx: &Ledger, entries: Seq<(String, Balance)>, m: int, w: int) -> bool {
    &&& forall|i: int| 0 <= i < entries.len() ==> #[trigger] collect_allowed(tx, entries, m, i)
    &&& forall|i: int| 0 <= i < entries.len() ==> #[trigger] payout_allowed(tx, entries, m, w, i)
}

/// New accounts opened with positive bounds leave the bounds of every key,
/// as positive accounts see them, as they were.
proof fn lemma_pos_bounds_stable(new: &Ledger, old: &Ledger)
    requires
        old.wf(),
        new.wf(),
        old.accounts.len() <= new.accounts.len(),
        new.accounts@.subrange(0, old.accounts.len() as int) == old.accounts@,
        forall|j: int| old.accounts.len() <= j < new.accounts.len() ==> (#[trigger] new.accounts@[j]).min_balance
            == Some(0i64) && new.accounts@[j].max_balance is None,
    ensures
        forall|m: int, a: int, o: Seq<char>| #[trigger] bounds_for(new, m, a, o, AccountConstraint::Positive)
            == bounds_for(old, m, a, o, AccountConstraint::Positive),
{
    assert forall|m: int, a: int, o: Seq<char>| #[trigger] bounds_for(new, m, a, o, AccountConstraint::Positive)
        == bounds_for(old, m, a, o, AccountConstraint::Positive) by {
        match old.account_index(m, a, o) {
            Some(i) => {
                assert(has_key(old.accounts@[i], m, a, o));
                assert(new.accounts@[i] == new.accounts@.subrange(0, old.accounts.len() as int)[i]);
                lemma_find_account(new.accounts@, m, a, o, i);
            },
            None => {
                match new.account_index(m, a, o) {
                    Some(j) => {
                        assert(has_key(new.accounts@[j], m, a, o));
                        if j < old.accounts.len() {
                            assert(new.accounts@[j] == new.accounts@.subrange(0, old.accounts.len() as int)[j]);
                            assert(has_key(old.accounts@[j], m, a, o));
                            assert(false);
                        }
                    },
                    None => {},
                }
            },
        }
    }
}

/// The balance of a key lies within the bounds that a positive account of
/// that key has, or would get.
proof fn lemma_balance_in_bounds(tx: &Ledger, m: int, a: int, o: Seq<char>, constraint: AccountConstraint)
    requires
        tx.wf(),
        constraint == AccountConstraint::Positive,
    ensures
        balance_allowed(tx, m, a, o, constraint, tx.balance_of(m, a, o)),
{
    match tx.account_index(m, a, o) {
        Some(i) => {
            assert(within_bounds(tx.accounts@[i].min_balance, tx.accounts@[i].max_balance, tx.balances@[i] as int));
        },
        None => {},
    }
}

/// The position of an outcome among the market's outcomes.
pub open spec fn outcome_position(market: &Market, outcome: OutcomeId) -> int {
    choose|k: int| 0 <= k < market.outcomes.len() && market.outcome_ids()[k] == outcome.0
}


/// The balance of the account with the key among the first `n` accounts.
pub open spec fn balance_upto(accounts: Seq<AccountRow>, balances: Seq<i64>, n: int, m: int, a: int, o: Seq<char>) -> int {
    match find_account(accounts.take(n), m, a, o) {
        Some(j) => balances[j] as int,
        None => 0,
    }
}

/// The sum, over the owners of the entries, of `balance_upto`.
pub open spec fn entries_sum_upto(
    accounts: Seq<AccountRow>,
    balances: Seq<i64>,
    entries: Seq<(String, Balance)>,
    n: int,
    m: int,
    a: int,
) -> int
    decreases entries.len(),
{
    if entries.len() == 0 {
        0
    } else {
        entries_sum_upto(accounts, balances, entries.drop_last(), n, m, a) + balance_upto(
            accounts,
            balances,
            n,
            m,
            a,
            entries.last().0@,
        )
    }
}

pub open spec fn entries_contain(entries: Seq<(String, Balance)>, o: Seq<char>) -> bool {
    exists|i: int| 0 <= i < entries.len() && (#[trigger] entries[i]).0@ == o
}

/// The sum, over the entries, of the balance of their owner's account of `a` in market `m`.
pub open spec fn owners_balance_sum(tx: &Ledger, entries: Seq<(String, Balance)>, m: int, a: int) -> int
    decreases entries.len(),
{
    if entries.len() == 0 {
        0
    } else {
        owners_balance_sum(tx, entries.drop_last(), m, a) + tx.balance_of(m, a, entries.last().0@)
    }
}

/// The sum of the entries' balances of the outcome at position `w`.
pub open spec fn winning_sum(entries: Seq<(String, Balance)>, w: int) -> int
    decreases entries.len(),
{
    if entries.len() == 0 {
        0
    } else {
        winning_sum(entries.drop_last(), w) + entries.last().1.outcomes@[w].0
    }
}

proof fn lemma_keys_unique_take(accounts: Seq<AccountRow>, n: int)
    requires
        keys_unique(accounts),
        0 <= n <= accounts.len(),
    ensures
        keys_unique(accounts.take(n)),
{
    assert forall|i: int, j: int|
        0 <= i < accounts.take(n).len() && 0 <= j < accounts.take(n).len() && i != j implies !same_key(
        #[trigger] accounts.take(n)[i],
        #[trigger] accounts.take(n)[j],
    ) by {
        assert(accounts.take(n)[i] == accounts[i]);
        assert(accounts.take(n)[j] == accounts[j]);
    }
}

/// Taking one more account into account changes only the balance of its own key.
proof fn lemma_balance_upto_step(accounts: Seq<AccountRow>, balances: Seq<i64>, n: int, m: int, a: int, o: Seq<char>)
    requires
        keys_unique(accounts),
        0 <= n < accounts.len(),
    ensures
        balance_upto(accounts, balances, n + 1, m, a, o) == balance_upto(accounts, balances, n, m, a, o) + if has_key(
            accounts[n],
            m,
            a,
            o,
        ) {
            balances[n] as int
        } else {
            0
        },
{
    lemma_keys_unique_take(accounts, n);
    lemma_keys_unique_take(accounts, n + 1);
    let p = accounts.take(n);
    let q = accounts.take(n + 1);
    if has_key(accounts[n], m, a, o) {
        assert(q[n] == accounts[n]);
        lemma_find_account(q, m, a, o, n);
        if find_account(p, m, a, o) is Some {
            let j = find_account(p, m, a, o).unwrap();
            assert(has_key(p[j], m, a, o));
            assert(q[j] == p[j]);
            assert(same_key(q[j], q[n]));
        }
    } else {
        match find_account(p, m, a, o) {
            Some(j) => {
                assert(has_key(p[j], m, a, o));
                assert(q[j] == p[j]);
                lemma_find_account(q, m, a, o, j);
            },
            None => {
                if find_account(q, m, a, o) is Some {
                    let j = find_account(q, m, a, o).unwrap();
                    assert(has_key(q[j], m, a, o));
                    if j < n {
                        assert(q[j] == p[j]);
                    }
                }
            },
        }
    }
}

proof fn lemma_entries_sum_step(
    accounts: Seq<AccountRow>,
    balances: Seq<i64>,
    entries: Seq<(String, Balance)>,
    n: int,
    m: int,
    a: int,
)
    requires
        keys_unique(accounts),
        0 <= n < accounts.len(),
        owners_distinct(entries),
    ensures
        entries_sum_upto(accounts, balances, entries, n + 1, m, a) == entries_sum_upto(accounts, balances, entries, n, m, a)
            + if accounts[n].market_id == m && accounts[n].asset_id == a && entries_contain(entries, accounts[n].owner@) {
            balances[n] as int
        } else {
            0
        },
    decreases entries.len(),
{
    if entries.len() > 0 {
        let prev = entries.drop_last();
        assert forall|i: int, j: int| 0 <= i < prev.len() && 0 <= j < prev.len() && i != j implies (#[trigger] prev[i]).0@
            != (#[trigger] prev[j]).0@ by {
            assert(prev[i] == entries[i]);
            assert(prev[j] == entries[j]);
        }
        lemma_entries_sum_step(accounts, balances, prev, n, m, a);
        lemma_balance_upto_step(accounts, balances, n, m, a, entries.last().0@);
        let o = accounts[n].owner@;
        if entries_contain(entries, o) {
            let i = choose|i: int| 0 <= i < entries.len() && (#[trigger] entries[i]).0@ == o;
            if i < entries.len() - 1 {
                assert(prev[i] == entries[i]);
                assert(entries_contain(prev, o));
                assert(entries[entries.len() - 1].0@ != o);
            } else {
                if entries_contain(prev, o) {
                    let k = choose|k: int| 0 <= k < prev.len() && (#[trigger] prev[k]).0@ == o;
                    assert(prev[k] == entries[k]);
                }
            }
        } else {
            if entries_contain(prev, o) {
                let k = choose|k: int| 0 <= k < prev.len() && (#[trigger] prev[k]).0@ == o;
                assert(prev[k] == entries[k]);
            }
            assert(entries[entries.len() - 1].0@ != o);
        }
    }
}

/// Over the first `n` accounts, the entries' balances add up to the market's total.
proof fn lemma_entries_prefix(tx: &Ledger, entries: Seq<(String, Balance)>, m: int, a: int, n: int)
    requires
        tx.wf(),
        owners_distinct(entries),
        forall|j: int|
            0 <= j < tx.accounts.len() && (#[trigger] tx.accounts@[j]).market_id == m ==> exists|i: int|
                0 <= i < entries.len() && (#[trigger] entries[i]).0@ == tx.accounts@[j].owner@,
        0 <= n <= tx.accounts.len(),
    ensures
        entries_sum_upto(tx.accounts@, tx.balances@, entries, n, m, a) == total(
            tx.accounts@.take(n),
            tx.balances@.take(n),
            Some(m),
            a,
        ),
    decreases n,
{
    let accs = tx.accounts@;
    let bals = tx.balances@;
    if n == 0 {
        lemma_entries_sum_zero(accs, bals, entries, m, a);
        assert(accs.take(0) =~= Seq::<AccountRow>::empty());
    } else {
        let p = n - 1;
        lemma_entries_prefix(tx, entries, m, a, p);
        lemma_entries_sum_step(accs, bals, entries, p, m, a);
        assert(accs.take(n).drop_last() =~= accs.take(p));
        assert(bals.take(n).drop_last() =~= bals.take(p));
        if accs[p].market_id == m {
            let i = choose|i: int| 0 <= i < entries.len() && (#[trigger] entries[i]).0@ == tx.accounts@[p].owner@;
            assert(entries_contain(entries, accs[p].owner@));
        }
    }
}

/// When the entries name every owner of an account in market `m`, each once,
/// the entries' balances of an asset add up to the market's total of it.
pub proof fn lemma_entries_cover_total(tx: &Ledger, entries: Seq<(String, Balance)>, m: int, a: int)
    requires
        tx.wf(),
        owners_distinct(entries),
        forall|j: int|
            0 <= j < tx.accounts.len() && (#[trigger] tx.accounts@[j]).market_id == m ==> exists|i: int|
                0 <= i < entries.len() && (#[trigger] entries[i]).0@ == tx.accounts@[j].owner@,
    ensures
        owners_balance_sum(tx, entries, m, a) == tx.market_total(m, a),
{
    let len = tx.accounts.len() as int;
    lemma_entries_prefix(tx, entries, m, a, len);
    assert(tx.accounts@.take(len) =~= tx.accounts@);
    assert(tx.balances@.take(len) =~= tx.balances@);
    lemma_entries_sum_full(tx, entries, m, a);
}

proof fn lemma_entries_sum_zero(accounts: Seq<AccountRow>, balances: Seq<i64>, entries: Seq<(String, Balance)>, m: int, a: int)
    ensures
        entries_sum_upto(accounts, balances, entries, 0, m, a) == 0,
    decreases entries.len(),
{
    if entries.len() > 0 {
        lemma_entries_sum_zero(accounts, balances, entries.drop_last(), m, a);
        assert(accounts.take(0) =~= Seq::<AccountRow>::empty());
    }
}

proof fn lemma_entries_sum_full(tx: &Ledger, entries: Seq<(String, Balance)>, m: int, a: int)
    requires
        tx.accounts@.take(tx.accounts.len() as int) == tx.accounts@,
    ensures
        entries_sum_upto(tx.accounts@, tx.balances@, entries, tx.accounts.len() as int, m, a) == owners_balance_sum(tx, entries, m, a),
    decreases entries.len(),
{
    if entries.len() > 0 {
        lemma_entries_sum_full(tx, entries.drop_last(), m, a);
    }
}

/// The deposits of the entries add up to the sum of their owners' points in
/// the market, and so do their shares of the outcome at position `w`.
proof fn lemma_snapshot_sums(tx: &Ledger, market: &Market, w: int)
    requires
        tx.wf(),
        market.snapshot_of(tx),
        0 <= w < market.outcomes.len(),
    ensures
        points_sum(market.balances@) == tx.market_total(market.id.0 as int, 0),
        winning_sum(market.balances@, w) == tx.market_total(market.id.0 as int, market.outcome_ids()[w]),
{
    let m = market.id.0 as int;
    let entries = market.balances@;
    lemma_entries_cover_total(tx, entries, m, 0);
    lemma_entries_cover_total(tx, entries, m, market.outcome_ids()[w]);
    lemma_sums_match(tx, market, entries, w);
}

proof fn lemma_sums_match(tx: &Ledger, market: &Market, entries: Seq<(String, Balance)>, w: int)
    requires
        0 <= w < market.outcomes.len(),
        forall|i: int|
            0 <= i < entries.len() ==> balance_matches(tx, market.id.0 as int, market.outcome_ids(), (#[trigger] entries[i]).0@, entries[i].1),
    ensures
        points_sum(entries) == owners_balance_sum(tx, entries, market.id.0 as int, 0),
        winning_sum(entries, w) == owners_balance_sum(tx, entries, market.id.0 as int, market.outcome_ids()[w]),
    decreases entries.len(),
{
    if entries.len() > 0 {
        let prev = entries.drop_last();
        assert forall|i: int| 0 <= i < prev.len() implies balance_matches(tx, market.id.0 as int, market.outcome_ids(), (#[trigger] prev[i]).0@, prev[i].1) by {
            assert(prev[i] == entries[i]);
        }
        lemma_sums_match(tx, market, prev, w);
        assert(balance_matches(tx, market.id.0 as int, market.outcome_ids(), entries[entries.len() - 1].0@, entries[entries.len() - 1].1));
    }
}

proof fn lemma_collect_at_pool(entries: Seq<(String, Balance)>, m: int)
    ensures
        collect_delta(entries, m, m, 0, system_owner()) == points_sum_excluding_system(entries),
    decreases entries.len(),
{
    if entries.len() > 0 {
        lemma_collect_at_pool(entries.drop_last(), m);
    }
}

proof fn lemma_payout_at_pool(entries: Seq<(String, Balance)>, m: int, w: int)
    requires
        m != 0,
    ensures
        payout_delta(entries, m, w, m, 0, system_owner()) == -winning_sum(entries, w),
    decreases entries.len(),
{
    if entries.len() > 0 {
        lemma_payout_at_pool(entries.drop_last(), m, w);
    }
}

/// The points of the system's entry, if there is one.
pub open spec fn system_points(entries: Seq<(String, Balance)>) -> int
    decreases entries.len(),
{
    if entries.len() == 0 {
        0
    } else {
        system_points(entries.drop_last()) + if entries.last().0@ == system_owner() {
            entries.last().1.points.0 as int
        } else {
            0
        }
    }
}

proof fn lemma_points_split(entries: Seq<(String, Balance)>)
    ensures
        points_sum(entries) == points_sum_excluding_system(entries) + system_points(entries),
    decreases entries.len(),
{
    if entries.len() > 0 {
        lemma_points_split(entries.drop_last());
    }
}

/// With distinct owners, the system's entry, if any, holds the system's points in the market.
proof fn lemma_system_points(tx: &Ledger, market: &Market, entries: Seq<(String, Balance)>)
    requires
        owners_distinct(entries),
        forall|i: int|
            0 <= i < entries.len() ==> balance_matches(tx, market.id.0 as int, market.outcome_ids(), (#[trigger] entries[i]).0@, entries[i].1),
    ensures
        system_points(entries) == if entries_contain(entries, system_owner()) {
            tx.balance_of(market.id.0 as int, 0, system_owner())
        } else {
            0
        },
    decreases entries.len(),
{
    if entries.len() > 0 {
        let prev = entries.drop_last();
        assert forall|i: int, j: int| 0 <= i < prev.len() && 0 <= j < prev.len() && i != j implies (#[trigger] prev[i]).0@
            != (#[trigger] prev[j]).0@ by {
            assert(prev[i] == entries[i]);
            assert(prev[j] == entries[j]);
        }
        assert forall|i: int| 0 <= i < prev.len() implies balance_matches(tx, market.id.0 as int, market.outcome_ids(), (#[trigger] prev[i]).0@, prev[i].1) by {
            assert(prev[i] == entries[i]);
        }
        lemma_system_points(tx, market, prev);
        let last = entries[entries.len() - 1];
        assert(balance_matches(tx, market.id.0 as int, market.outcome_ids(), last.0@, last.1));
        if entries_contain(prev, system_owner()) {
            let k = choose|k: int| 0 <= k < prev.len() && (#[trigger] prev[k]).0@ == system_owner();
            assert(prev[k] == entries[k]);
            assert(entries_contain(entries, system_owner()));
        }
        if entries_contain(entries, system_owner()) && !entries_contain(prev, system_owner()) {
            let k = choose|k: int| 0 <= k < entries.len() && (#[trigger] entries[k]).0@ == system_owner();
            if k < prev.len() {
                assert(prev[k] == entries[k]);
            }
        }
        if last.0@ == system_owner() {
            assert(entries_contain(entries, system_owner()));
        }
    }
}

/// Resolve a market to one of its outcomes.
///
/// All points deposited by participants move into the system's points account
/// of the market; then every owner, the system included, is paid one point per
/// share of the winning outcome into their global points account, and the
/// realized profit (points deposited, points paid out) of each owner is
/// recorded, in the order of the market's balances. It all happens in one
/// "Resolve" event of the system.
pub fn create_resolution(tx: &mut Ledger, market: &Market, outcome: OutcomeId) -> (r: Result<(), LedgerError>)
    requires
        old(tx).wf(),
        market.snapshot_of(old(tx)),
        outcome.1 == market.id,
        market.outcome_ids().contains(outcome.0 as int),
        forall|i: int| 0 <= i < market.balances.len() && (#[trigger] market.balances@[i]).0@ != system_owner()
            ==> market.balances@[i].1.points.0 >= 0,
        forall|i: int| 0 <= i < market.balances.len() ==> (#[trigger] market.balances@[i]).1.outcomes@[outcome_position(market, outcome)].0 >= 0,
    ensures
        final(tx).wf(),
        final(tx).markets@ == old(tx).markets@,
        final(tx).outcomes@ == old(tx).outcomes@,
        r is Ok ==> {
            let m = market.id.0 as int;
            let w = outcome_position(market, outcome);
            &&& final(tx).events@.drop_last() == old(tx).events@
            &&& final(tx).events@.len() == old(tx).events@.len() + 1
            &&& final(tx).events@.last().owner@ == system_owner()
            &&& final(tx).events@.last().description@ == "Resolve"@
            &&& final(tx).transfers@.len() >= old(tx).transfers@.len()
            &&& final(tx).transfers@.subrange(0, old(tx).transfers.len() as int) == old(tx).transfers@
            &&& forall|j: int| old(tx).transfers.len() <= j < final(tx).transfers.len()
                ==> (#[trigger] final(tx).transfers@[j]).event_id == old(tx).events.len()
            &&& forall|km: int, ka: int, ko: Seq<char>| #[trigger] final(tx).balance_of(km, ka, ko)
                == old(tx).balance_of(km, ka, ko) + collect_delta(market.balances@, m, km, ka, ko)
                    + payout_delta(market.balances@, m, w, km, ka, ko)
            &&& final(tx).profits@.subrange(0, old(tx).profits.len() as int) == old(tx).profits@
            &&& final(tx).profits.len() == old(tx).profits.len() + market.balances.len()
            &&& forall|q: int| 0 <= q < market.balances.len() ==> {
                let row = #[trigger] final(tx).profits@[old(tx).profits.len() + q];
                &&& row.market_id == m
                &&& row.event_id == old(tx).events.len()
                &&& row.owner@ == market.balances@[q].0@
                &&& row.amount_in == market.balances@[q].1.points.0
                &&& row.amount_out == market.balances@[q].1.outcomes@[w].0
            }
            // Every point deposited into the market is collected, every share of
            // the winning outcome is paid one point, and the pool keeps the rest.
            &&& points_sum(market.balances@) == old(tx).market_total(m, 0)
            &&& winning_sum(market.balances@, w) == old(tx).market_total(m, outcome.0 as int)
            &&& final(tx).balance_of(m, 0, system_owner()) == old(tx).market_total(m, 0) - old(tx).market_total(m, outcome.0 as int)
            // Zero sum: in a balanced market the payouts add up to the deposits,
            // and the pool ends empty.
            &&& old(tx).market_balanced(m) ==> {
                &&& winning_sum(market.balances@, w) == points_sum(market.balances@)
                &&& final(tx).balance_of(m, 0, system_owner()) == 0
            }
        },
        old(tx).events.len() < i64::MAX && old(tx).accounts.len() + 3 + 4 * market.balances.len() <= i64::MAX
            ==> (r is Ok <==> resolution_allowed(
            old(tx),
            market.balances@,
            market.id.0 as int,
            outcome_position(market, outcome),
        )),
{
    let ghost m = market.id.0 as int;
    let ghost w = outcome_position(market, outcome);
    let ghost entries = market.balances@;
    let ghost n = market.balances.len() as int;
    let ghost room = old(tx).events.len() < i64::MAX && old(tx).accounts.len() + 3 + 4 * n <= i64::MAX;
    let system = system_owner_string();
    let event = match tx.create_event(system.as_str(), "Resolve") {
        Ok(id) => EventId(id),
        Err(e) => return Err(e),
    };
    let ghost t_event = *tx;
    let pos = AccountConstraint::Positive;
    // As a first step, move all points that are escrowed in individual accounts
    // into the market's points account, so we can pay out from there.
    match ensure_account(tx, market.id, AssetId::POINTS(), system.as_str(), pos) {
        Ok(_) => {},
        Err(e) => return Err(e),
    }
    let ghost t0 = *tx;
    proof {
        lemma_grows_balances(&t0, &t_event);
        assert(entries.take(0) =~= Seq::<(String, Balance)>::empty());
        assert(t_event.accounts@ == old(tx).accounts@);
        assert(t0.accounts@.subrange(0, old(tx).accounts.len() as int) =~= old(tx).accounts@);
    }
    let mut i: usize = 0;
    while i < market.balances.len()
        invariant
            tx.wf(),
            old(tx).wf(),
            market.snapshot_of(old(tx)),
            entries == market.balances@,
            m == market.id.0,
            1 <= m <= old(tx).markets.len(),
            i <= market.balances.len(),
            system@ == system_owner(),
            pos == AccountConstraint::Positive,
            forall|i: int| 0 <= i < market.balances.len() && (#[trigger] market.balances@[i]).0@ != system_owner()
                ==> market.balances@[i].1.points.0 >= 0,
            tx.markets@ == old(tx).markets@,
            tx.outcomes@ == old(tx).outcomes@,
            tx.profits@ == old(tx).profits@,
            tx.events@ == t_event.events@,
            t_event.events@.drop_last() == old(tx).events@,
            t_event.events@.len() == old(tx).events@.len() + 1,
            t_event.events@.last().owner@ == system_owner(),
            t_event.events@.last().description@ == "Resolve"@,
            event.0 == old(tx).events.len(),
            tx.transfers@.len() >= old(tx).transfers@.len(),
            tx.transfers@.subrange(0, old(tx).transfers.len() as int) == old(tx).transfers@,
            forall|j: int| old(tx).transfers.len() <= j < tx.transfers.len()
                ==> (#[trigger] tx.transfers@[j]).event_id == old(tx).events.len(),
            forall|km: int, ka: int, ko: Seq<char>| #[trigger] tx.balance_of(km, ka, ko)
                == old(tx).balance_of(km, ka, ko) + collect_delta(entries.take(i as int), m, km, ka, ko),
            n == market.balances.len(),
            room == (old(tx).events.len() < i64::MAX && old(tx).accounts.len() + 3 + 4 * n <= i64::MAX),
            old(tx).accounts.len() <= tx.accounts.len() <= old(tx).accounts.len() + 1 + 2 * i,
            tx.accounts@.subrange(0, old(tx).accounts.len() as int) == old(tx).accounts@,
            forall|j: int| old(tx).accounts.len() <= j < tx.accounts.len() ==> (#[trigger] tx.accounts@[j]).min_balance
                == Some(0i64) && tx.accounts@[j].max_balance is None,
            room ==> forall|j: int| 0 <= j < i ==> #[trigger] collect_allowed(old(tx), entries, m, j),
        decreases market.balances.len() - i,
    {
        let owner = market.balances[i].0.as_str();
        let points = market.balances[i].1.points;
        proof {
            assert(entries.take(i + 1).drop_last() =~= entries.take(i as int));
            assert(entries.take(i + 1).last() == entries[i as int]);
            assert(market.balances@[i as int].1.points.1 == AssetId(0));
        }
        if !str_eq(owner, system.as_str()) && points.0 > 0 {
            let ghost cur = *tx;
            proof {
                lemma_pos_bounds_stable(&cur, old(tx));
                let sys = system_owner();
                assert(cur.balance_of(m, 0, owner@) == old(tx).balance_of(m, 0, owner@) + collect_delta(entries.take(i as int), m, m, 0, owner@));
                assert(cur.balance_of(m, 0, sys) == old(tx).balance_of(m, 0, sys) + collect_delta(entries.take(i as int), m, m, 0, sys));
                assert(bounds_for(&cur, m, 0, owner@, pos) == bounds_for(old(tx), m, 0, owner@, pos));
                assert(bounds_for(&cur, m, 0, sys, pos) == bounds_for(old(tx), m, 0, sys, pos));
            }
            match transfer_between(tx, event, market.id, owner, pos, market.id, system.as_str(), pos, points) {
                Ok(()) => {},
                Err(e) => {
                    proof {
                        if room {
                            assert(!collect_allowed(old(tx), entries, m, i as int));
                        }
                    }
                    return Err(e);
                },
            }
            proof {
                assert(tx.accounts@.subrange(0, old(tx).accounts.len() as int) =~= cur.accounts@.subrange(0, old(tx).accounts.len() as int));
                assert forall|j: int| old(tx).accounts.len() <= j < tx.accounts.len() implies (#[trigger] tx.accounts@[j]).min_balance
                    == Some(0i64) && tx.accounts@[j].max_balance is None by {
                    if j < cur.accounts.len() {
                        assert(tx.accounts@[j] == cur.accounts@[j]);
                    }
                }
                if room {
                    assert(collect_allowed(old(tx), entries, m, i as int));
                }
                assert(tx.transfers@.subrange(0, old(tx).transfers.len() as int) =~= cur.transfers@.subrange(0, old(tx).transfers.len() as int));
                assert forall|j: int| old(tx).transfers.len() <= j < tx.transfers.len() implies (#[trigger] tx.transfers@[j]).event_id
                    == old(tx).events.len() by {
                    if j < cur.transfers.len() {
                        assert(tx.transfers@[j] == cur.transfers@[j]);
                    }
                }
            }
        } else {
            proof {
                if owner@ != system_owner() {
                    let cur = *tx;
                    let sys = system_owner();
                    lemma_pos_bounds_stable(&cur, old(tx));
                    lemma_balance_in_bounds(&cur, m, 0, owner@, pos);
                    lemma_balance_in_bounds(&cur, m, 0, sys, pos);
                    assert(cur.balance_of(m, 0, owner@) == old(tx).balance_of(m, 0, owner@) + collect_delta(entries.take(i as int), m, m, 0, owner@));
                    assert(cur.balance_of(m, 0, sys) == old(tx).balance_of(m, 0, sys) + collect_delta(entries.take(i as int), m, m, 0, sys));
                    assert(bounds_for(&cur, m, 0, owner@, pos) == bounds_for(old(tx), m, 0, owner@, pos));
                    assert(bounds_for(&cur, m, 0, sys, pos) == bounds_for(old(tx), m, 0, sys, pos));
                }
                assert(collect_allowed(old(tx), entries, m, i as int));
            }
        }
        i = i + 1;
    }
    proof {
        assert(entries.take(entries.len() as int) =~= entries);
    }
    // Now we again walk all participants and their balances, and we pay out the
    // points that everybody is due.
    let mut k: usize = 0;
    while k < market.outcomes.len() && market.outcomes[k].id.0 != outcome.0
        invariant
            k <= market.outcomes.len(),
            forall|q: int| 0 <= q < k ==> market.outcome_ids()[q] != outcome.0,
        decreases market.outcomes.len() - k,
    {
        k = k + 1;
    }
    proof {
        let q = choose|q: int| 0 <= q < market.outcome_ids().len() && market.outcome_ids()[q] == outcome.0;
        assert(k < market.outcomes.len());
        lemma_outcome_ids(old(tx).outcomes@, m);
        assert(w == k) by {
            let ids = market.outcome_ids();
            assert(ids == old(tx).outcome_ids(m));
            if w != k as int {
                if w < k {
                    assert(ids[w] < ids[k as int]);
                } else {
                    assert(ids[k as int] < ids[w]);
                }
            }
        }
    }
    let ghost t_collected = *tx;
    let mut i: usize = 0;
    while i < market.balances.len()
        invariant
            tx.wf(),
            old(tx).wf(),
            market.snapshot_of(old(tx)),
            entries == market.balances@,
            m == market.id.0,
            w == k,
            w == outcome_position(market, outcome),
            k < market.outcomes.len(),
            1 <= m <= old(tx).markets.len(),
            i <= market.balances.len(),
            system@ == system_owner(),
            pos == AccountConstraint::Positive,
            forall|i: int| 0 <= i < market.balances.len() ==> (#[trigger] market.balances@[i]).1.outcomes@[outcome_position(market, outcome)].0 >= 0,
            tx.markets@ == old(tx).markets@,
            tx.outcomes@ == old(tx).outcomes@,
            tx.events@ == t_event.events@,
            t_event.events@.drop_last() == old(tx).events@,
            t_event.events@.len() == old(tx).events@.len() + 1,
            t_event.events@.last().owner@ == system_owner(),
            t_event.events@.last().description@ == "Resolve"@,
            event.0 == old(tx).events.len(),
            tx.transfers@.len() >= old(tx).transfers@.len(),
            tx.transfers@.subrange(0, old(tx).transfers.len() as int) == old(tx).transfers@,
            forall|j: int| old(tx).transfers.len() <= j < tx.transfers.len()
                ==> (#[trigger] tx.transfers@[j]).event_id == old(tx).events.len(),
            forall|km: int, ka: int, ko: Seq<char>| #[trigger] tx.balance_of(km, ka, ko)
                == old(tx).balance_of(km, ka, ko) + collect_delta(entries, m, km, ka, ko)
                    + payout_delta(entries.take(i as int), m, w, km, ka, ko),
            tx.profits@.subrange(0, old(tx).profits.len() as int) == old(tx).profits@,
            tx.profits.len() == old(tx).profits.len() + i,
            forall|q: int| 0 <= q < i ==> {
                let row = #[trigger] tx.profits@[old(tx).profits.len() + q];
                &&& row.market_id == m
                &&& row.event_id == old(tx).events.len()
                &&& row.owner@ == market.balances@[q].0@
                &&& row.amount_in == market.balances@[q].1.points.0
                &&& row.amount_out == market.balances@[q].1.outcomes@[w].0
            },
            n == market.balances.len(),
            room == (old(tx).events.len() < i64::MAX && old(tx).accounts.len() + 3 + 4 * n <= i64::MAX),
            old(tx).accounts.len() <= tx.accounts.len() <= old(tx).accounts.len() + 1 + 2 * n + 2 * i,
            tx.accounts@.subrange(0, old(tx).accounts.len() as int) == old(tx).accounts@,
            forall|j: int| old(tx).accounts.len() <= j < tx.accounts.len() ==> (#[trigger] tx.accounts@[j]).min_balance
                == Some(0i64) && tx.accounts@[j].max_balance is None,
            room ==> forall|j: int| 0 <= j < n ==> #[trigger] collect_allowed(old(tx), entries, m, j),
            room ==> forall|j: int| 0 <= j < i ==> #[trigger] payout_allowed(old(tx), entries, m, w, j),
        decreases market.balances.len() - i,
    {
        let owner = market.balances[i].0.as_str();
        let balance = &market.balances[i].1;
        proof {
            assert(entries.take(i + 1).drop_last() =~= entries.take(i as int));
            assert(entries.take(i + 1).last() == entries[i as int]);
            assert(balance_matches(old(tx), m, market.outcome_ids(), entries[i as int].0@, entries[i as int].1));
        }
        let amount_out = balance.outcomes[k].cast(AssetId::POINTS());
        proof {
            assert(market.balances@[i as int].1.outcomes@[outcome_position(market, outcome)].0 >= 0);
            assert(amount_out.0 == entries[i as int].1.outcomes@[w].0);
        }
        let ghost cur = *tx;
        proof {
            lemma_pos_bounds_stable(&cur, old(tx));
            let sys = system_owner();
            assert(cur.balance_of(m, 0, sys) == old(tx).balance_of(m, 0, sys) + collect_delta(entries, m, m, 0, sys)
                + payout_delta(entries.take(i as int), m, w, m, 0, sys));
            assert(cur.balance_of(0, 0, owner@) == old(tx).balance_of(0, 0, owner@) + collect_delta(entries, m, 0, 0, owner@)
                + payout_delta(entries.take(i as int), m, w, 0, 0, owner@));
            assert(bounds_for(&cur, m, 0, sys, pos) == bounds_for(old(tx), m, 0, sys, pos));
            assert(bounds_for(&cur, 0, 0, owner@, pos) == bounds_for(old(tx), 0, 0, owner@, pos));
        }
        // Shares of the winning outcome pay one point each; an owner without
        // any is paid nothing.
        if amount_out.0 > 0 {
            match transfer_between(tx, event, market.id, system.as_str(), pos, MarketId::NONE(), owner, pos, amount_out) {
                Ok(()) => {},
                Err(e) => {
                    proof {
                        if room {
                            assert(!payout_allowed(old(tx), entries, m, w, i as int));
                        }
                    }
                    return Err(e);
                },
            }
        } else {
            proof {
                let sys = system_owner();
                lemma_balance_in_bounds(&cur, m, 0, sys, pos);
                lemma_balance_in_bounds(&cur, 0, 0, owner@, pos);
            }
        }
        let ghost t_mid = *tx;
        proof {
            assert(tx.transfers@.subrange(0, old(tx).transfers.len() as int) =~= cur.transfers@.subrange(0, old(tx).transfers.len() as int));
            assert forall|j: int| old(tx).transfers.len() <= j < tx.transfers.len() implies (#[trigger] tx.transfers@[j]).event_id
                == old(tx).events.len() by {
                if j < cur.transfers.len() {
                    assert(tx.transfers@[j] == cur.transfers@[j]);
                }
            }
            assert(tx.accounts@.subrange(0, old(tx).accounts.len() as int) =~= cur.accounts@.subrange(0, old(tx).accounts.len() as int));
            assert forall|j: int| old(tx).accounts.len() <= j < tx.accounts.len() implies (#[trigger] tx.accounts@[j]).min_balance
                == Some(0i64) && tx.accounts@[j].max_balance is None by {
                if j < cur.accounts.len() {
                    assert(tx.accounts@[j] == cur.accounts@[j]);
                }
            }
            if room {
                assert(payout_allowed(old(tx), entries, m, w, i as int));
            }
        }
        // Also record the realized profits to make it easier to show the
        // status of a resolved market.
        let ghost before = tx.profits@;
        tx.create_realized_profit(market.id.0, event.0, owner, balance.points.0, amount_out.0);
        proof {
            assert(tx.profits@.subrange(0, old(tx).profits.len() as int) =~= before.subrange(0, old(tx).profits.len() as int));
            assert forall|km: int, ka: int, ko: Seq<char>| #[trigger] tx.balance_of(km, ka, ko)
                == old(tx).balance_of(km, ka, ko) + collect_delta(entries, m, km, ka, ko)
                    + payout_delta(entries.take(i + 1), m, w, km, ka, ko) by {
                assert(tx.balance_of(km, ka, ko) == t_mid.balance_of(km, ka, ko));
                assert(cur.balance_of(km, ka, ko) == old(tx).balance_of(km, ka, ko) + collect_delta(entries, m, km, ka, ko)
                    + payout_delta(entries.take(i as int), m, w, km, ka, ko));
            }
            assert forall|q: int| 0 <= q < i + 1 implies {
                let row = #[trigger] tx.profits@[old(tx).profits.len() + q];
                &&& row.market_id == m
                &&& row.event_id == old(tx).events.len()
                &&& row.owner@ == market.balances@[q].0@
                &&& row.amount_in == market.balances@[q].1.points.0
                &&& row.amount_out == market.balances@[q].1.outcomes@[w].0
            } by {
                if q < i {
                    assert(tx.profits@[old(tx).profits.len() + q] == before[old(tx).profits.len() + q]);
                }
            }
        }
        i = i + 1;
    }
    proof {
        assert(entries.take(entries.len() as int) =~= entries);
        lemma_snapshot_sums(old(tx), market, w);
        lemma_collect_at_pool(entries, m);
        lemma_payout_at_pool(entries, m, w);
        lemma_points_split(entries);
        lemma_system_points(old(tx), market, entries);
        let sys = system_owner();
        if !entries_contain(entries, sys) {
            match old(tx).account_index(m, 0, sys) {
                Some(j) => {
                    assert(has_key(old(tx).accounts@[j], m, 0, sys));
                    assert(old(tx).accounts@[j].market_id == m);
                    let q = choose|q: int| 0 <= q < entries.len() && (#[trigger] entries[q]).0@ == old(tx).accounts@[j].owner@;
                    assert(entries_contain(entries, sys));
                },
                None => {},
            }
        }
        if old(tx).market_balanced(m) {
            assert(market.outcome_ids()[w] == outcome.0);
            assert(old(tx).outcome_ids(m)[w] == outcome.0);
            assert(old(tx).market_total(m, old(tx).outcome_ids(m)[w]) == old(tx).market_total(m, 0));
        }
    }
    Ok(())
}


} // verus!
