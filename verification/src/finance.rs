//! Type-safe wrappers for interactions with accounts and ledgers: the first
//! edition, in which ledger accounts carry no balance constraints.

use vstd::prelude::*;

use crate::config::AppConfig;
use crate::ledger::{lemma_find_account, lemma_grows_balances, lemma_transfer_balances, system_owner, system_owner_string, Ledger, LedgerError};
use crate::decimal::{amount_text, amount_text_exec, pow10};
use crate::model::{parse_fits, parsed_micros};

verus! {

#[derive(Copy, Clone, Debug)]
pub struct MarketId(pub i64);

impl MarketId {
    /// Market 0 is the global "no market" for points accounts outside of a market.
    ///
    /// All accounts that hold assets are related to a market, except for an
    /// owner global points balance. We represent that as a market anyway, to
    /// make things more uniform.
    #[allow(non_snake_case)]
    pub fn NONE() -> (r: MarketId)
        ensures
            r == MarketId(0),
    {
        MarketId(0)
    }
}

#[derive(Copy, Clone, Debug, PartialEq, Eq, Structural)]
pub struct AssetId(pub i64);

#[derive(Copy, Clone, Debug)]
pub struct AccountId(pub i64, pub AssetId);

impl AssetId {
    /// The asset id for the native asset ("points").
    #[allow(non_snake_case)]
    pub fn POINTS() -> (r: AssetId)
        ensures
            r == AssetId(0),
    {
        AssetId(0)
    }
}

impl AccountId {
    /// The account id for the system's points account.
    #[allow(non_snake_case)]
    pub fn SYSTEM_POINTS() -> (r: AccountId)
        ensures
            r == AccountId(0, AssetId(0)),
    {
        AccountId(0, AssetId(0))
    }
}

/// An amount of a given asset.
///
/// The integer represents a micro-increment of the asset, i.e. 10^-6.
#[derive(Copy, Clone, Debug, PartialEq, Eq, Structural)]
pub struct Amount(pub i64, pub AssetId);

/// Whether `s` can be read without overflow: see `parse_fits`.
pub fn parse_amount_fits(s: &str) -> (r: bool)
    ensures
        r == parse_fits(s@),
{
    crate::model::parse_amount_fits(s)
}

impl AssetId {
    pub fn zero(&self) -> (r: Amount)
        ensures
            r == Amount(0, *self),
    {
        Amount(0, *self)
    }

    /// Read decimal text such as `"1.25"` as an amount of this asset.
    ///
    /// At most six decimals are accepted; the text must otherwise be what
    /// `i64::from_str` accepts on either side of a single `.`.
    pub fn parse_amount(&self, s: &str) -> (r: Option<Amount>)
        requires
            parse_fits(s@),
        ensures
            r == match parsed_micros(s@) {
                Some(v) => Some(Amount(v as i64, *self)),
                None => None::<Amount>,
            },
    {
        match crate::model::AssetId(self.0).parse_amount(s) {
            Some(a) => Some(Amount(a.0, *self)),
            None => None,
        }
    }
}

impl Amount {
    /// The amount as decimal text with `precision` decimals, rounded half
    /// away from zero; with no decimals, there is no point either.
    pub fn fmt_precision(&self, precision: usize) -> (r: String)
        requires
            precision <= 6,
        ensures
            r@ == amount_text(self.0 as int, precision as nat),
    {
        amount_text_exec(self.0, precision)
    }

    /// The amount as decimal text in full precision (six decimals).
    pub fn to_string(&self) -> (r: String)
        ensures
            r@ == amount_text(self.0 as int, 6),
    {
        self.fmt_precision(6)
    }
}


#[derive(Copy, Clone, Debug)]
pub struct EventId(pub i64);

/// Whether `id` names an account of the ledger, with the asset it says.
pub open spec fn valid_account(tx: &Ledger, id: AccountId) -> bool {
    0 <= id.0 < tx.accounts.len() && tx.accounts@[id.0 as int].asset_id == id.1.0
}

/// Ensure that an account exists for the given (market_id, owner_id, asset_id), return its id.
///
/// A new account starts at zero and has no bounds.
pub fn ensure_account(tx: &mut Ledger, market_id: MarketId, asset_id: AssetId, owner: &str) -> (r: Result<AccountId, LedgerError>)
    requires
        old(tx).wf(),
        old(tx).schema_ok(market_id.0 as int, asset_id.0 as int),
    ensures
        final(tx).wf(),
        final(tx).grows_from(old(tx)),
        match r {
            Ok(id) => {
                &&& id.1 == asset_id
                &&& valid_account(final(tx), id)
                &&& final(tx).account_index(market_id.0 as int, asset_id.0 as int, owner@) == Some(id.0 as int)
                &&& old(tx).account_index(market_id.0 as int, asset_id.0 as int, owner@) is Some ==> *final(tx) == *old(tx)
                &&& old(tx).account_index(market_id.0 as int, asset_id.0 as int, owner@) is None ==> {
                    &&& final(tx).accounts.len() == old(tx).accounts.len() + 1
                    &&& final(tx).accounts@.last().min_balance is None
                    &&& final(tx).accounts@.last().max_balance is None
                }
            },
            Err(e) => e == LedgerError::Full && *final(tx) == *old(tx),
        },
        r is Err <==> (old(tx).account_index(market_id.0 as int, asset_id.0 as int, owner@) is None
            && old(tx).accounts.len() == i64::MAX),
{
    let id = match tx.get_account_id(market_id.0, asset_id.0, owner) {
        Some(id) => {
            proof {
                crate::ledger::lemma_grows_refl(tx);
            }
            id
        },
        None => {
            let id = match tx.create_account(market_id.0, asset_id.0, owner, None, None) {
                Ok(id) => id,
                Err(e) => {
                    proof {
                        crate::ledger::lemma_grows_refl(tx);
                    }
                    return Err(e);
                },
            };
            proof {
                lemma_find_account(tx.accounts@, market_id.0 as int, asset_id.0 as int, owner@, id as int);
                assert(tx.accounts@.subrange(0, old(tx).accounts.len() as int) =~= old(tx).accounts@);
                assert(tx.balances@.subrange(0, old(tx).accounts.len() as int) =~= old(tx).balances@);
            }
            id
        },
    };
    Ok(AccountId(id, asset_id))
}

/// Ensure that a user has a global points account, fund it with the opening balance if needed, return id.
///
/// A new account has no bounds, and gets the opening balance from the
/// system's points account, in a "Sign-on bonus" event of the system.
pub fn ensure_points_account(tx: &mut Ledger, config: &AppConfig, owner: &str) -> (r: Result<AccountId, LedgerError>)
    requires
        old(tx).wf(),
    ensures
        final(tx).wf(),
        match r {
            Ok(id) => {
                &&& id.1 == AssetId(0)
                &&& valid_account(final(tx), id)
                &&& final(tx).account_index(0, 0, owner@) == Some(id.0 as int)
                &&& old(tx).account_index(0, 0, owner@) is Some ==> *final(tx) == *old(tx)
                &&& old(tx).account_index(0, 0, owner@) is None ==> {
                    &&& final(tx).balance_of(0, 0, owner@) == config.opening_balance_micros
                    &&& final(tx).balance_of(0, 0, system_owner()) == old(tx).balance_of(0, 0, system_owner()) - config.opening_balance_micros
                    &&& forall|m: int, a: int, o: Seq<char>| !(m == 0 && a == 0 && (o == owner@ || o == system_owner()))
                        ==> #[trigger] final(tx).balance_of(m, a, o) == old(tx).balance_of(m, a, o)
                    &&& final(tx).accounts@.last().min_balance is None
                    &&& final(tx).accounts@.last().max_balance is None
                    &&& final(tx).events@.last().owner@ == system_owner()
                    &&& final(tx).events@.last().description@ == "Sign-on bonus"@
                }
            },
            Err(e) => e == LedgerError::Full || e == LedgerError::Overflow,
        },
        r is Err <==> old(tx).account_index(0, 0, owner@) is None && (old(tx).accounts.len() == i64::MAX
            || old(tx).events.len() == i64::MAX
            || !(i64::MIN <= old(tx).balances@[0] - config.opening_balance_micros <= i64::MAX)),
{
    let market_id = MarketId::NONE();
    let asset_id = AssetId::POINTS();
    let id = match tx.get_account_id(market_id.0, asset_id.0, owner) {
        Some(id) => id,
        None => {
            let ghost t0 = *tx;
            let to_account_id = tx.create_account(market_id.0, asset_id.0, owner, None, None)?;
            let from_account_id = AccountId::SYSTEM_POINTS().0;
            let system = system_owner_string();
            let ghost t1 = *tx;
            let event_id = tx.create_event(system.as_str(), "Sign-on bonus")?;
            let amount = config.opening_balance_micros;
            let ghost t2 = *tx;
            proof {
                lemma_find_account(t1.accounts@, 0, 0, owner@, to_account_id as int);
                lemma_find_account(t1.accounts@, 0, 0, system_owner(), 0);
                assert(t1.accounts@.subrange(0, t0.accounts.len() as int) =~= t0.accounts@);
                assert(t1.balances@.subrange(0, t0.accounts.len() as int) =~= t0.balances@);
                lemma_grows_balances(&t1, &t0);
                assert(t1.accounts@[0] == t0.accounts@[0]);
            }
            tx.create_transfer(event_id, from_account_id, to_account_id, amount)?;
            proof {
                lemma_transfer_balances(tx, &t2, 0, to_account_id as int, (t2.balances@[0] - amount) as i64, (0 + amount) as i64);
                assert forall|m: int, a: int, o: Seq<char>| !(m == 0 && a == 0 && (o == owner@ || o == system_owner()))
                    implies #[trigger] tx.balance_of(m, a, o) == t0.balance_of(m, a, o) by {
                    assert(t1.balance_of(m, a, o) == t0.balance_of(m, a, o));
                    assert(t2.balance_of(m, a, o) == t1.balance_of(m, a, o));
                }
                assert(t1.balance_of(0, 0, system_owner()) == t0.balance_of(0, 0, system_owner()));
            }
            to_account_id
        },
    };
    Ok(AccountId(id, asset_id))
}

/// The balance of an account, as an amount of its asset.
pub fn get_account_balance(tx: &Ledger, account_id: AccountId) -> (r: Result<Amount, LedgerError>)
    requires
        tx.wf(),
        valid_account(tx, account_id),
    ensures
        r == Ok::<Amount, LedgerError>(Amount(tx.balances@[account_id.0 as int], account_id.1)),
{
    let amount = tx.get_account_balance(account_id.0);
    Ok(Amount(amount, account_id.1))
}

} // verus!
