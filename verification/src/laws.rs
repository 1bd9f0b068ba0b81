//! Properties of the market economy as a whole, over what the operations
//! of `model` state.

use vstd::prelude::*;

use crate::ledger::{has_key, lemma_total_update, market_profits, system_owner, total, within_bounds, EventRow, Ledger, LedgerError, ProfitRow};
use crate::model::{
    deposit_delta, deposit_needed, payout_delta, position_of_asset, position_of_owner, trade_delta, trade_of_event,
    transfer_row_is, Amount, AssetId, Balance, Market, MarketId,
};
use crate::routes::clamped_amount_in;

verus! {

/// Prediction markets are a zero-sum game: no point and no share is created
/// without an opposite balance, so in a consistent ledger the balances of
/// every asset, points included, add up to zero. Every operation of `model`
/// keeps the ledger consistent.
pub proof fn law_balances_sum_to_zero(tx: &Ledger, asset: int)
    requires
        tx.wf(),
    ensures
        total(tx.accounts@, tx.balances@, None, asset) == 0,
{
}

/// A basket of one share in every outcome is worth one point: an owner who
/// holds the same number of shares of every outcome is paid the same at
/// resolution, whichever outcome the market `m` resolves to.
pub proof fn law_neutral_position_pays_the_same(
    entries: Seq<(String, Balance)>,
    m: int,
    w1: int,
    w2: int,
    owner: Seq<char>,
)
    requires
        m >= 1,
        forall|i: int| 0 <= i < entries.len() && (#[trigger] entries[i]).0@ == owner ==> {
            &&& 0 <= w1 < entries[i].1.outcomes.len()
            &&& 0 <= w2 < entries[i].1.outcomes.len()
            &&& entries[i].1.outcomes@[w1].0 == entries[i].1.outcomes@[w2].0
        },
    ensures
        payout_delta(entries, m, w1, 0, 0, owner) == payout_delta(entries, m, w2, 0, 0, owner),
    decreases entries.len(),
{
    if entries.len() > 0 {
        let rest = entries.drop_last();
        assert forall|i: int| 0 <= i < rest.len() && (#[trigger] rest[i]).0@ == owner implies {
            &&& 0 <= w1 < rest[i].1.outcomes.len()
            &&& 0 <= w2 < rest[i].1.outcomes.len()
            &&& rest[i].1.outcomes@[w1].0 == rest[i].1.outcomes@[w2].0
        } by {
            assert(rest[i] == entries[i]);
        }
        law_neutral_position_pays_the_same(rest, m, w1, w2, owner);
        if entries.last().0@ == owner {
            assert(entries[entries.len() - 1] == entries.last());
        }
    }
}

proof fn lemma_market_profits_nonempty(profits: Seq<ProfitRow>, m: int, j: int)
    requires
        0 <= j < profits.len(),
        profits[j].market_id == m,
    ensures
        market_profits(profits, m).len() > 0,
    decreases profits.len(),
{
    if profits.last().market_id != m {
        assert(profits.drop_last()[j] == profits[j]);
        lemma_market_profits_nonempty(profits.drop_last(), m, j);
    }
}

/// A resolved market is closed: once resolving records a profit row for
/// the market, every later reading of the market says it is not open, so
/// nobody can trade in it any more.
pub proof fn law_resolved_market_is_closed(tx: &Ledger, market: &Market, j: int)
    requires
        market.snapshot_of(tx),
        0 <= j < tx.profits.len(),
        tx.profits@[j].market_id == market.id.0,
    ensures
        market.profits@.len() > 0,
{
    lemma_market_profits_nonempty(tx.profits@, market.id.0 as int, j);
}

/// Points cannot be withdrawn from a market: a deposit only takes points
/// from the depositor's global account (and the system's global accounts
/// only mint shares), and a trade changes no global account at all. Only
/// resolution pays points out of a market.
pub proof fn law_no_withdrawal(
    m: int,
    ids: Seq<int>,
    amount: int,
    amount_in: Amount,
    amount_out: Amount,
    owner: Seq<char>,
    o: Seq<char>,
)
    requires
        m >= 1,
        amount > 0,
        forall|k: int| 0 <= k < ids.len() ==> ids[k] >= 1,
    ensures
        deposit_delta(m, ids, amount, owner, 0, 0, o) <= 0,
        trade_delta(m, amount_in, amount_out, owner, 0, 0, o) == 0,
{
    assert(!ids.contains(0)) by {
        if ids.contains(0) {
            let k = choose|k: int| 0 <= k < ids.len() && ids[k] == 0;
            assert(ids[k] >= 1);
        }
    }
}


/// Double entry: a transfer between two accounts of one asset, when the
/// ledger takes it, keeps every balance within its account's bounds and
/// leaves the total of every asset as it was; the ledger refuses it exactly
/// when a balance would leave `i64` or cross a bound of its account.
pub proof fn law_transfer_keeps_bounds_and_totals(tx: &Ledger, from: int, to: int, amount: int)
    requires
        tx.wf(),
        0 <= from < tx.accounts.len(),
        0 <= to < tx.accounts.len(),
        tx.accounts@[from].asset_id == tx.accounts@[to].asset_id,
    ensures
        match tx.transfer_result(from, to, amount) {
            Ok(b) => {
                &&& b.len() == tx.accounts.len()
                &&& forall|i: int| 0 <= i < b.len() ==> within_bounds(
                    #[trigger] tx.accounts@[i].min_balance,
                    tx.accounts@[i].max_balance,
                    b[i] as int,
                )
                &&& forall|a: int| #[trigger] total(tx.accounts@, b, None, a) == total(tx.accounts@, tx.balances@, None, a)
            },
            Err(e) => {
                let nf = tx.balances@[from] - amount;
                let nt = tx.balances@[to] + amount;
                &&& from != to
                &&& (e == LedgerError::Overflow) == !(i64::MIN <= nf <= i64::MAX && i64::MIN <= nt <= i64::MAX)
                &&& e == LedgerError::Overflow || e == LedgerError::BalanceOutOfBounds
                &&& e == LedgerError::BalanceOutOfBounds ==> !within_bounds(
                    tx.accounts@[from].min_balance,
                    tx.accounts@[from].max_balance,
                    nf,
                ) || !within_bounds(tx.accounts@[to].min_balance, tx.accounts@[to].max_balance, nt)
            },
        },
{
    if from != to {
        if let Ok(b) = tx.transfer_result(from, to, amount) {
            let nf = tx.balances@[from] - amount;
            let nt = tx.balances@[to] + amount;
            assert(b == tx.balances@.update(from, nf as i64).update(to, nt as i64));
            assert forall|i: int| 0 <= i < b.len() implies within_bounds(
                #[trigger] tx.accounts@[i].min_balance,
                tx.accounts@[i].max_balance,
                b[i] as int,
            ) by {
                if i != from && i != to {
                    assert(b[i] == tx.balances@[i]);
                }
            }
            let b1 = tx.balances@.update(from, nf as i64);
            assert forall|a: int| #[trigger] total(tx.accounts@, b, None, a) == total(tx.accounts@, tx.balances@, None, a) by {
                lemma_total_update(tx.accounts@, tx.balances@, from, nf as i64, None, a);
                lemma_total_update(tx.accounts@, b1, to, nt as i64, None, a);
            }
        }
    }
}


proof fn lemma_market_profits_append(p: Seq<ProfitRow>, r: Seq<ProfitRow>, m: int)
    requires
        forall|i: int| 0 <= i < r.len() ==> (#[trigger] r[i]).market_id == m,
    ensures
        market_profits(p + r, m) == market_profits(p, m) + r,
    decreases r.len(),
{
    if r.len() == 0 {
        assert(p + r =~= p);
        assert(market_profits(p, m) + r =~= market_profits(p, m));
    } else {
        let d = r.drop_last();
        assert forall|i: int| 0 <= i < d.len() implies (#[trigger] d[i]).market_id == m by {
            assert(d[i] == r[i]);
        }
        lemma_market_profits_append(p, d, m);
        assert((p + r).drop_last() =~= p + d);
        assert((p + r).last() == r.last());
        assert(r[r.len() - 1] == r.last());
        assert((market_profits(p, m) + d).push(r.last()) =~= market_profits(p, m) + r);
    }
}

/// Resolving an open market records exactly one realized profit per owner
/// of its balances, in their order, with the points the owner deposited and
/// the points paid out; a later reading of the market lists just those rows,
/// so a market with owners is closed once resolved.
pub proof fn law_resolution_records_one_profit_per_owner(old: &Ledger, new: &Ledger, market: &Market, w: int, later: &Market)
    requires
        market.snapshot_of(old),
        market.profits@.len() == 0,
        new.profits@.len() == old.profits@.len() + market.balances.len(),
        new.profits@.subrange(0, old.profits.len() as int) == old.profits@,
        forall|q: int| 0 <= q < market.balances.len() ==> {
            let row = #[trigger] new.profits@[old.profits.len() + q];
            &&& row.market_id == market.id.0
            &&& row.owner@ == market.balances@[q].0@
            &&& row.amount_in == market.balances@[q].1.points.0
            &&& row.amount_out == market.balances@[q].1.outcomes@[w].0
        },
        later.snapshot_of(new),
        later.id == market.id,
    ensures
        later.profits@.len() == market.balances.len(),
        market.balances.len() > 0 ==> later.profits@.len() > 0,
        forall|q: int| 0 <= q < market.balances.len() ==> {
            &&& (#[trigger] later.profits@[q]).owner@ == market.balances@[q].0@
            &&& later.profits@[q].amount_in == Amount(market.balances@[q].1.points.0, AssetId(0))
            &&& later.profits@[q].amount_out == Amount(market.balances@[q].1.outcomes@[w].0, AssetId(0))
        },
{
    let m = market.id.0 as int;
    let n = old.profits.len() as int;
    let rows = new.profits@.subrange(n, new.profits.len() as int);
    assert forall|i: int| 0 <= i < rows.len() implies (#[trigger] rows[i]).market_id == m by {
        assert(rows[i] == new.profits@[n + i]);
    }
    assert(new.profits@ =~= old.profits@ + rows);
    lemma_market_profits_append(old.profits@, rows, m);
    assert(market_profits(old.profits@, m).len() == 0);
    assert(market_profits(new.profits@, m) =~= rows);
    assert forall|q: int| 0 <= q < market.balances.len() implies {
        &&& (#[trigger] later.profits@[q]).owner@ == market.balances@[q].0@
        &&& later.profits@[q].amount_in == Amount(market.balances@[q].1.points.0, AssetId(0))
        &&& later.profits@[q].amount_out == Amount(market.balances@[q].1.outcomes@[w].0, AssetId(0))
    } by {
        assert(rows[q] == new.profits@[n + q]);
    }
}


/// A trade sells the shares the owner holds before it spends liquid points:
/// when the owner holds `held` of the `amount_in.0` shares sold, the deposit
/// made first is the `amount_in.0 - held` that are missing, and the owner's
/// global points go down by exactly that; when they hold enough, nothing is
/// deposited.
pub proof fn law_trade_deposits_only_the_missing_shares(
    tx: &Ledger,
    m: int,
    ids: Seq<int>,
    amount_in: Amount,
    owner: Seq<char>,
)
    requires
        m >= 1,
        owner != system_owner(),
        forall|k: int| 0 <= k < ids.len() ==> ids[k] >= 1,
    ensures
        ({
            let held = tx.balance_of(m, amount_in.1.0 as int, owner);
            &&& held >= amount_in.0 ==> deposit_needed(tx, m, amount_in, owner) == 0
            &&& 0 <= held < amount_in.0 ==> deposit_needed(tx, m, amount_in, owner) == amount_in.0 - held
            &&& 0 <= held < amount_in.0 ==> deposit_delta(m, ids, deposit_needed(tx, m, amount_in, owner), owner, 0, 0, owner)
                == held - amount_in.0
        }),
{
    assert(!ids.contains(0)) by {
        if ids.contains(0) {
            let k = choose|k: int| 0 <= k < ids.len() && ids[k] == 0;
        }
    }
}

/// The activity of a trade names the trader: for the event that a trade of
/// `owner` records (a "Trade" event whose last transfer pays `amount_out`
/// from the pool to the owner, as `create_trade` states), the activity row
/// gives the owner as buyer, the market, and `amount_out` as bought.
pub proof fn law_trade_activity_names_the_trader(old: &Ledger, new: &Ledger, m: int, amount_out: Amount, owner: Seq<char>)
    requires
        new.wf(),
        new.events@.len() == old.events@.len() + 1,
        new.events@.last().description@ == "Trade"@,
        new.transfers@.len() == old.transfers@.len() + 2,
        transfer_row_is(new, new.transfers@[old.transfers.len() + 1], old.events.len() as int, m, system_owner(), m, owner,
            amount_out),
    ensures
        trade_of_event(new, old.events.len() as int) matches Some(t) && t.user_email@ == owner && t.market_id == MarketId(
            m as i64,
        ) && t.amount_bought == amount_out && t.event_id.0 == old.events.len(),
{
    let e = old.events.len() as int;
    let row = new.transfers@[old.transfers.len() + 1];
    assert(new.transfers@.last() == row);
    assert(new.events@[e] == new.events@.last());
    let i = new.account_index(m, amount_out.1.0 as int, owner)->0;
    assert(has_key(new.accounts@[i], m, amount_out.1.0 as int, owner));
}

/// An order is limited by what the owner can spend on the asset sold: the
/// amount keeps its asset and never grows; when it is cut, the limit is the
/// owner's balance of that same asset plus their positive liquid points;
/// and an owner who holds none of it (no entry, or no such asset) is not
/// limited at all.
pub proof fn law_clamp_limits_by_the_asset_sold(market: &Market, owner: Seq<char>, liquid: i64, amount_in: Amount)
    ensures
        ({
            let r = clamped_amount_in(market, owner, liquid, amount_in);
            let spendable: int = if liquid > 0 { liquid as int } else { 0 };
            &&& r.1 == amount_in.1
            &&& r.0 <= amount_in.0
            &&& r.0 < amount_in.0 ==> exists|p: int, k: int|
                #![trigger market.balances@[p].1.outcomes@[k]]
                0 <= p < market.balances.len() && market.balances@[p].0@ == owner && 0 <= k
                    < market.balances@[p].1.outcomes.len() && market.balances@[p].1.outcomes@[k].1 == amount_in.1 && r.0
                    == market.balances@[p].1.outcomes@[k].0 + spendable
            &&& (forall|p: int, k: int|
                #![trigger market.balances@[p].1.outcomes@[k]]
                0 <= p < market.balances.len() && market.balances@[p].0@ == owner && 0 <= k
                    < market.balances@[p].1.outcomes.len() ==> market.balances@[p].1.outcomes@[k].1 != amount_in.1)
                ==> r == amount_in
        }),
{
    lemma_position_of_owner(market.balances@, owner);
    match position_of_owner(market.balances@, owner) {
        Some(p) => {
            lemma_position_of_asset(market.balances@[p].1.outcomes@, amount_in.1);
        },
        None => {},
    }
}

proof fn lemma_position_of_owner(balances: Seq<(String, Balance)>, owner: Seq<char>)
    ensures
        match position_of_owner(balances, owner) {
            Some(p) => 0 <= p < balances.len() && balances[p].0@ == owner,
            None => forall|p: int| 0 <= p < balances.len() ==> (#[trigger] balances[p]).0@ != owner,
        },
    decreases balances.len(),
{
    if balances.len() > 0 {
        let d = balances.drop_last();
        lemma_position_of_owner(d, owner);
        match position_of_owner(d, owner) {
            Some(p) => {
                assert(balances[p] == d[p]);
            },
            None => {
                assert forall|p: int| 0 <= p < d.len() implies (#[trigger] balances[p]).0@ != owner by {
                    assert(balances[p] == d[p]);
                }
                assert(balances[balances.len() - 1] == balances.last());
            },
        }
    }
}

proof fn lemma_position_of_asset(amounts: Seq<Amount>, asset: AssetId)
    ensures
        match position_of_asset(amounts, asset) {
            Some(k) => 0 <= k < amounts.len() && amounts[k].1 == asset,
            None => forall|k: int| 0 <= k < amounts.len() ==> (#[trigger] amounts[k]).1 != asset,
        },
    decreases amounts.len(),
{
    if amounts.len() > 0 {
        let d = amounts.drop_last();
        lemma_position_of_asset(d, asset);
        match position_of_asset(d, asset) {
            Some(k) => {
                assert(amounts[k] == d[k]);
            },
            None => {
                assert forall|k: int| 0 <= k < d.len() implies (#[trigger] amounts[k]).1 != asset by {
                    assert(amounts[k] == d[k]);
                }
                assert(amounts[amounts.len() - 1] == amounts.last());
            },
        }
    }
}

} // verus!
