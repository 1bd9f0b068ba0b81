//! The ledger: markets, their outcomes, accounts with balance constraints,
//! and the transfers between accounts, with the events that caused them.
//!
//! Identifiers are positions: account `i` is `accounts[i]`, event `i` is
//! `events[i]`, while markets and outcomes are numbered from 1 so that 0 can
//! stand for "no market" and for the points asset.
//!
//! Every transfer moves an amount from one account to another account of the
//! same asset, so for every asset the balances of all accounts add up to zero:
//! minting accounts go negative by exactly what their holders own.

use vstd::prelude::*;

use crate::config::{Datetime, MarketKind};
use crate::text::str_eq;

verus! {

#[derive(Copy, Clone, Debug, PartialEq, Eq, Structural)]
pub enum LedgerError {
    /// A balance would leave the bounds of its account.
    BalanceOutOfBounds,
    /// A balance would not fit in an `i64`.
    Overflow,
    /// There is no room for another row.
    Full,
    /// The market does not take trades at this time.
    Closed,
}

#[derive(Clone, Debug)]
pub struct AccountRow {
    pub market_id: i64,
    pub asset_id: i64,
    pub owner: String,
    pub min_balance: Option<i64>,
    pub max_balance: Option<i64>,
}

#[derive(Clone, Debug)]
pub struct EventRow {
    pub owner: String,
    pub description: String,
}

/// A transfer, with the balances of both accounts right after it.
#[derive(Copy, Clone, Debug)]
pub struct TransferRow {
    pub event_id: i64,
    pub from_account: i64,
    pub to_account: i64,
    pub amount: i64,
    pub from_balance: i64,
    pub to_balance: i64,
}

#[derive(Clone, Debug)]
pub struct MarketRow {
    pub slug: String,
    pub kind: MarketKind,
    pub title: String,
    pub description: String,
    /// When trading opens; absent when the market opens at creation.
    pub opens_at: Option<Datetime>,
    /// When trading closes; absent when the market has no close date.
    pub closes_at: Option<Datetime>,
}

#[derive(Clone, Debug)]
pub struct OutcomeRow {
    pub market_id: i64,
    pub value: String,
}

#[derive(Clone, Debug)]
pub struct ProfitRow {
    pub market_id: i64,
    pub event_id: i64,
    pub owner: String,
    pub amount_in: i64,
    pub amount_out: i64,
}

#[derive(Clone, Debug)]
pub struct Ledger {
    /// Market `i + 1`.
    pub markets: Vec<MarketRow>,
    /// Outcome `i + 1`, which is also the id of the asset of its shares.
    pub outcomes: Vec<OutcomeRow>,
    /// Account `i`.
    pub accounts: Vec<AccountRow>,
    /// The balance of account `i`.
    pub balances: Vec<i64>,
    /// Event `i`.
    pub events: Vec<EventRow>,
    pub transfers: Vec<TransferRow>,
    pub profits: Vec<ProfitRow>,
}

/// The owner name reserved for the system.
pub open spec fn system_owner() -> Seq<char> {
    seq!['S', 'Y', 'S', 'T', 'E', 'M']
}

pub open spec fn within_bounds(min: Option<i64>, max: Option<i64>, balance: int) -> bool {
    &&& match min {
        Some(lo) => lo <= balance,
        None => true,
    }
    &&& match max {
        Some(hi) => balance <= hi,
        None => true,
    }
}

pub open spec fn has_key(r: AccountRow, market: int, asset: int, owner: Seq<char>) -> bool {
    r.market_id == market && r.asset_id == asset && r.owner@ == owner
}

pub open spec fn same_key(r: AccountRow, s: AccountRow) -> bool {
    has_key(r, s.market_id as int, s.asset_id as int, s.owner@)
}

/// Whether an account counts towards a total of `asset`, within `market` if one is given.
pub open spec fn counts(r: AccountRow, market: Option<int>, asset: int) -> bool {
    r.asset_id == asset && match market {
        Some(m) => r.market_id == m,
        None => true,
    }
}

/// The sum of the balances of the accounts that count towards `asset` (in `market`).
pub open spec fn total(
    accounts: Seq<AccountRow>,
    balances: Seq<i64>,
    market: Option<int>,
    asset: int,
) -> int
    decreases accounts.len(),
{
    if accounts.len() == 0 || balances.len() == 0 {
        0
    } else {
        total(accounts.drop_last(), balances.drop_last(), market, asset) + if counts(
            accounts.last(),
            market,
            asset,
        ) {
            balances.last() as int
        } else {
            0
        }
    }
}

pub proof fn lemma_total_update(
    accounts: Seq<AccountRow>,
    balances: Seq<i64>,
    i: int,
    v: i64,
    market: Option<int>,
    asset: int,
)
    requires
        accounts.len() == balances.len(),
        0 <= i < accounts.len(),
    ensures
        total(accounts, balances.update(i, v), market, asset) == total(
            accounts,
            balances,
            market,
            asset,
        ) - (if counts(accounts[i], market, asset) {
            balances[i] as int
        } else {
            0
        }) + (if counts(accounts[i], market, asset) {
            v as int
        } else {
            0
        }),
    decreases accounts.len(),
{
    let b2 = balances.update(i, v);
    if i == accounts.len() - 1 {
        assert(b2.drop_last() =~= balances.drop_last());
    } else {
        assert(b2.drop_last() =~= balances.drop_last().update(i, v));
        lemma_total_update(accounts.drop_last(), balances.drop_last(), i, v, market, asset);
    }
}

pub proof fn lemma_total_push(
    accounts: Seq<AccountRow>,
    balances: Seq<i64>,
    r: AccountRow,
    market: Option<int>,
    asset: int,
)
    requires
        accounts.len() == balances.len(),
    ensures
        total(accounts.push(r), balances.push(0), market, asset) == total(
            accounts,
            balances,
            market,
            asset,
        ),
{
    assert(accounts.push(r).drop_last() =~= accounts);
    assert(balances.push(0).drop_last() =~= balances);
}

/// The ids of the outcomes (outcome `i + 1` is `outcomes[i]`) that belong to `market`.
pub open spec fn outcome_ids(outcomes: Seq<OutcomeRow>, market: int) -> Seq<int>
    decreases outcomes.len(),
{
    if outcomes.len() == 0 {
        Seq::empty()
    } else if outcomes.last().market_id == market {
        outcome_ids(outcomes.drop_last(), market).push(outcomes.len() as int)
    } else {
        outcome_ids(outcomes.drop_last(), market)
    }
}


/// The ids of a market's outcomes are existing outcomes of that market, in
/// increasing order; an id is among them exactly when its outcome belongs to the market.
pub proof fn lemma_outcome_ids(outcomes: Seq<OutcomeRow>, market: int)
    ensures
        forall|k: int|
            0 <= k < outcome_ids(outcomes, market).len() ==> 1 <= #[trigger] outcome_ids(outcomes, market)[k]
                <= outcomes.len() && outcomes[outcome_ids(outcomes, market)[k] - 1].market_id == market,
        forall|k1: int, k2: int|
            0 <= k1 < k2 < outcome_ids(outcomes, market).len() ==> #[trigger] outcome_ids(outcomes, market)[k1]
                < #[trigger] outcome_ids(outcomes, market)[k2],
        forall|x: int|
            #[trigger] outcome_ids(outcomes, market).contains(x) <==> (1 <= x <= outcomes.len()
                && outcomes[x - 1].market_id == market),
    decreases outcomes.len(),
{
    if outcomes.len() > 0 {
        let prev = outcomes.drop_last();
        lemma_outcome_ids(prev, market);
        let ids = outcome_ids(outcomes, market);
        let pids = outcome_ids(prev, market);
        assert forall|k: int| 0 <= k < pids.len() implies outcomes[pids[k] - 1] == prev[pids[k] - 1] by {}
        assert forall|x: int| #[trigger] ids.contains(x) <==> (1 <= x <= outcomes.len() && outcomes[x - 1].market_id
            == market) by {
            if ids.contains(x) {
                let k = choose|k: int| 0 <= k < ids.len() && ids[k] == x;
                if k < pids.len() {
                    assert(pids[k] == x);
                }
            }
            if 1 <= x <= outcomes.len() && outcomes[x - 1].market_id == market {
                if x == outcomes.len() {
                    assert(ids[ids.len() - 1] == x);
                } else {
                    assert(prev[x - 1] == outcomes[x - 1]);
                    assert(pids.contains(x));
                    let k = choose|k: int| 0 <= k < pids.len() && pids[k] == x;
                    assert(ids[k] == x);
                }
            }
        }
    }
}


/// Rows of other markets appended to the outcomes leave a market's outcome ids as they were.
pub proof fn lemma_outcome_ids_append_other(outcomes: Seq<OutcomeRow>, n: int, market: int)
    requires
        0 <= n <= outcomes.len(),
        forall|j: int| n <= j < outcomes.len() ==> (#[trigger] outcomes[j]).market_id != market,
    ensures
        outcome_ids(outcomes, market) == outcome_ids(outcomes.subrange(0, n), market),
    decreases outcomes.len() - n,
{
    if n < outcomes.len() {
        assert(outcomes.drop_last().subrange(0, n) =~= outcomes.subrange(0, n));
        lemma_outcome_ids_append_other(outcomes.drop_last(), n, market);
    } else {
        assert(outcomes.subrange(0, n) =~= outcomes);
    }
}

/// When the rows from `n` on are the only ones of a market, its outcome ids
/// are their ids, `n + 1` up to the number of rows.
pub proof fn lemma_outcome_ids_append_own(outcomes: Seq<OutcomeRow>, n: int, market: int)
    requires
        0 <= n <= outcomes.len(),
        forall|j: int| 0 <= j < n ==> (#[trigger] outcomes[j]).market_id != market,
        forall|j: int| n <= j < outcomes.len() ==> (#[trigger] outcomes[j]).market_id == market,
    ensures
        outcome_ids(outcomes, market) == Seq::new((outcomes.len() - n) as nat, |k: int| n + 1 + k),
    decreases outcomes.len(),
{
    if outcomes.len() > n {
        lemma_outcome_ids_append_own(outcomes.drop_last(), n, market);
        assert(outcome_ids(outcomes, market) =~= Seq::new((outcomes.len() - n) as nat, |k: int| n + 1 + k));
    } else {
        lemma_outcome_ids_append_other(outcomes, 0, market);
        assert(outcomes.subrange(0, 0) =~= Seq::<OutcomeRow>::empty());
        assert(outcome_ids(outcomes, market) =~= Seq::new((outcomes.len() - n) as nat, |k: int| n + 1 + k));
    }
}

/// The positions of the global points accounts (market 0, asset 0), in order.
pub open spec fn points_account_positions(accounts: Seq<AccountRow>) -> Seq<int>
    decreases accounts.len(),
{
    if accounts.len() == 0 {
        Seq::empty()
    } else if accounts.last().market_id == 0 && accounts.last().asset_id == 0 {
        points_account_positions(accounts.drop_last()).push(accounts.len() - 1)
    } else {
        points_account_positions(accounts.drop_last())
    }
}

proof fn lemma_points_positions_bounds(accounts: Seq<AccountRow>)
    ensures
        forall|q: int| 0 <= q < points_account_positions(accounts).len()
            ==> 0 <= #[trigger] points_account_positions(accounts)[q] < accounts.len(),
    decreases accounts.len(),
{
    law_points_accounts_are_the_global_ones(accounts);
}

/// The points accounts that the leaderboard reads are exactly the global
/// ones (market 0, asset 0), each once, in the order of the accounts: an
/// owner's points in a market are not liquid points.
pub proof fn law_points_accounts_are_the_global_ones(accounts: Seq<AccountRow>)
    ensures
        forall|q: int| 0 <= q < points_account_positions(accounts).len() ==> {
            let i = #[trigger] points_account_positions(accounts)[q];
            &&& 0 <= i < accounts.len()
            &&& accounts[i].market_id == 0
            &&& accounts[i].asset_id == 0
        },
        forall|q1: int, q2: int|
            0 <= q1 < q2 < points_account_positions(accounts).len() ==> #[trigger] points_account_positions(accounts)[q1]
                < #[trigger] points_account_positions(accounts)[q2],
        forall|i: int|
            0 <= i < accounts.len() && (#[trigger] accounts[i]).market_id == 0 && accounts[i].asset_id == 0 ==> exists|q: int|
                0 <= q < points_account_positions(accounts).len() && #[trigger] points_account_positions(accounts)[q] == i,
    decreases accounts.len(),
{
    if accounts.len() > 0 {
        let rest = accounts.drop_last();
        law_points_accounts_are_the_global_ones(rest);
        let p = points_account_positions(accounts);
        let pr = points_account_positions(rest);
        let n = accounts.len() - 1;
        assert forall|q: int| 0 <= q < p.len() implies {
            let i = #[trigger] p[q];
            &&& 0 <= i < accounts.len()
            &&& accounts[i].market_id == 0
            &&& accounts[i].asset_id == 0
        } by {
            if q < pr.len() {
                assert(p[q] == pr[q]);
                assert(accounts[pr[q]] == rest[pr[q]]);
            } else {
                assert(accounts[n] == accounts.last());
            }
        }
        assert forall|q1: int, q2: int| 0 <= q1 < q2 < p.len() implies #[trigger] p[q1] < #[trigger] p[q2] by {
            assert(p[q1] == pr[q1]);
            if q2 < pr.len() {
                assert(p[q2] == pr[q2]);
            }
        }
        assert forall|i: int| 0 <= i < accounts.len() && (#[trigger] accounts[i]).market_id == 0 && accounts[i].asset_id == 0
            implies exists|q: int| 0 <= q < p.len() && #[trigger] p[q] == i by {
            if i < n {
                assert(rest[i] == accounts[i]);
                let q = choose|q: int| 0 <= q < pr.len() && #[trigger] pr[q] == i;
                assert(p[q] == pr[q]);
            } else {
                assert(accounts[n] == accounts.last());
                assert(p[pr.len() as int] == n);
            }
        }
    }
}

/// The realized profits recorded for `market`, in order.
pub open spec fn market_profits(profits: Seq<ProfitRow>, market: int) -> Seq<ProfitRow>
    decreases profits.len(),
{
    if profits.len() == 0 {
        Seq::empty()
    } else if profits.last().market_id == market {
        market_profits(profits.drop_last(), market).push(profits.last())
    } else {
        market_profits(profits.drop_last(), market)
    }
}

/// The position of the account with the given key.
pub open spec fn find_account(
    accounts: Seq<AccountRow>,
    market: int,
    asset: int,
    owner: Seq<char>,
) -> Option<int> {
    if exists|i: int| 0 <= i < accounts.len() && has_key(#[trigger] accounts[i], market, asset, owner) {
        Some(
            choose|i: int|
                0 <= i < accounts.len() && has_key(#[trigger] accounts[i], market, asset, owner),
        )
    } else {
        None
    }
}

pub open spec fn keys_unique(accounts: Seq<AccountRow>) -> bool {
    forall|i: int, j: int|
        0 <= i < accounts.len() && 0 <= j < accounts.len() && i != j ==> !same_key(
            #[trigger] accounts[i],
            #[trigger] accounts[j],
        )
}

pub proof fn lemma_find_account(
    accounts: Seq<AccountRow>,
    market: int,
    asset: int,
    owner: Seq<char>,
    k: int,
)
    requires
        keys_unique(accounts),
        0 <= k < accounts.len(),
        has_key(accounts[k], market, asset, owner),
    ensures
        find_account(accounts, market, asset, owner) == Some(k),
{
    let j = choose|i: int| 0 <= i < accounts.len() && has_key(#[trigger] accounts[i], market, asset, owner);
    assert(has_key(accounts[j], market, asset, owner));
    if j != k {
        assert(same_key(accounts[j], accounts[k]));
    }
}

impl Ledger {
    /// The ledger is consistent:
    /// - account 0 is the unconstrained points account of the system;
    /// - every balance lies within the bounds of its account;
    /// - no two accounts share a (market, asset, owner) key;
    /// - for every asset the balances add up to zero;
    /// - accounts refer to existing markets and assets, and an outcome share
    ///   account within a market belongs to one of that market's outcomes;
    /// - outcomes refer to existing markets, and no two markets share a slug.
    pub open spec fn wf(&self) -> bool {
        &&& self.accounts.len() == self.balances.len()
        &&& self.accounts.len() >= 1
        &&& self.accounts.len() <= i64::MAX
        &&& self.events.len() <= i64::MAX
        &&& self.markets.len() < i64::MAX
        &&& self.outcomes.len() < i64::MAX
        &&& has_key(self.accounts@[0], 0, 0, system_owner())
        &&& self.accounts@[0].min_balance is None
        &&& self.accounts@[0].max_balance is None
        &&& forall|i: int|
            0 <= i < self.accounts.len() ==> within_bounds(
                #[trigger] self.accounts@[i].min_balance,
                self.accounts@[i].max_balance,
                self.balances@[i] as int,
            )
        &&& keys_unique(self.accounts@)
        &&& forall|a: int| #[trigger] total(self.accounts@, self.balances@, None, a) == 0
        &&& forall|i: int|
            0 <= i < self.accounts.len() ==> self.schema_ok(
                (#[trigger] self.accounts@[i]).market_id as int,
                self.accounts@[i].asset_id as int,
            )
        &&& forall|i: int|
            0 <= i < self.outcomes.len() ==> 1 <= (#[trigger] self.outcomes@[i]).market_id
                <= self.markets.len()
        &&& forall|i: int, j: int|
            0 <= i < self.markets.len() && 0 <= j < self.markets.len() && i != j
                ==> (#[trigger] self.markets@[i]).slug@ != (#[trigger] self.markets@[j]).slug@
    }

    /// Whether an account of `asset` may exist in `market`.
    pub open spec fn schema_ok(&self, market: int, asset: int) -> bool {
        &&& 0 <= market <= self.markets.len()
        &&& 0 <= asset <= self.outcomes.len()
        &&& (market == 0 || asset == 0 || self.outcomes@[asset - 1].market_id == market)
    }

    pub open spec fn account_index(&self, market: int, asset: int, owner: Seq<char>) -> Option<int> {
        find_account(self.accounts@, market, asset, owner)
    }

    /// The balance of the account with the given key; zero when there is none.
    pub open spec fn balance_of(&self, market: int, asset: int, owner: Seq<char>) -> int {
        match self.account_index(market, asset, owner) {
            Some(i) => self.balances@[i] as int,
            None => 0,
        }
    }

    /// The sum of all balances of `asset` in `market`.
    pub open spec fn market_total(&self, market: int, asset: int) -> int {
        total(self.accounts@, self.balances@, Some(market), asset)
    }


    /// Every outcome of market `m` has as many shares outstanding as the
    /// market holds deposited points: a basket of one share of every outcome
    /// stands for one point.
    pub open spec fn market_balanced(&self, m: int) -> bool {
        forall|k: int|
            0 <= k < self.outcome_ids(m).len() ==> self.market_total(m, #[trigger] self.outcome_ids(m)[k])
                == self.market_total(m, 0)
    }

    /// What a transfer does to the balances, or why it is refused.
    pub open spec fn transfer_result(&self, from: int, to: int, amount: int) -> Result<
        Seq<i64>,
        LedgerError,
    > {
        if from == to {
            Ok(self.balances@)
        } else {
            let nf = self.balances@[from] - amount;
            let nt = self.balances@[to] + amount;
            if !(i64::MIN <= nf <= i64::MAX && i64::MIN <= nt <= i64::MAX) {
                Err(LedgerError::Overflow)
            } else if !within_bounds(
                self.accounts@[from].min_balance,
                self.accounts@[from].max_balance,
                nf,
            ) || !within_bounds(self.accounts@[to].min_balance, self.accounts@[to].max_balance, nt) {
                Err(LedgerError::BalanceOutOfBounds)
            } else {
                Ok(self.balances@.update(from, nf as i64).update(to, nt as i64))
            }
        }
    }

    /// A ledger that holds only the system's points account.
    pub fn new() -> (r: Ledger)
        ensures
            r.wf(),
            r.accounts@.len() == 1,
            r.balances@ == seq![0i64],
            r.markets@.len() == 0,
            r.outcomes@.len() == 0,
            r.events@.len() == 0,
            r.transfers@.len() == 0,
            r.profits@.len() == 0,
    {
        let system = system_owner_string();
        let mut accounts = Vec::new();
        accounts.push(
            AccountRow {
                market_id: 0,
                asset_id: 0,
                owner: system,
                min_balance: None,
                max_balance: None,
            },
        );
        let mut balances = Vec::new();
        balances.push(0i64);
        let r = Ledger {
            markets: Vec::new(),
            outcomes: Vec::new(),
            accounts,
            balances,
            events: Vec::new(),
            transfers: Vec::new(),
            profits: Vec::new(),
        };
        assert forall|a: int| #[trigger] total(r.accounts@, r.balances@, None, a) == 0 by {
            assert(r.accounts@.drop_last().len() == 0);
            assert(r.balances@.drop_last().len() == 0);
            assert(total(r.accounts@.drop_last(), r.balances@.drop_last(), None, a) == 0);
            assert(r.balances@.last() == 0);
        }
        r
    }

    /// Whether two ledgers agree on everything but accounts and balances.
    pub open spec fn same_but_accounts(&self, other: &Ledger) -> bool {
        &&& self.markets@ == other.markets@
        &&& self.outcomes@ == other.outcomes@
        &&& self.events@ == other.events@
        &&& self.transfers@ == other.transfers@
        &&& self.profits@ == other.profits@
    }


    /// `self` is `old` with zero or more accounts added, all with a zero balance.
    pub open spec fn grows_from(&self, old: &Ledger) -> bool {
        &&& self.same_but_accounts(old)
        &&& old.accounts.len() <= self.accounts.len()
        &&& self.accounts@.subrange(0, old.accounts.len() as int) == old.accounts@
        &&& self.balances@.subrange(0, old.accounts.len() as int) == old.balances@
        &&& forall|i: int| old.accounts.len() <= i < self.balances.len() ==> #[trigger] self.balances@[i] == 0
    }
    /// Whether two ledgers agree on everything but events.
    pub open spec fn same_but_events(&self, other: &Ledger) -> bool {
        &&& self.markets@ == other.markets@
        &&& self.outcomes@ == other.outcomes@
        &&& self.accounts@ == other.accounts@
        &&& self.balances@ == other.balances@
        &&& self.transfers@ == other.transfers@
        &&& self.profits@ == other.profits@
    }

    /// Opens a new account with a zero balance.
    ///
    /// Fails with `Full` when there is no room for another account.
    pub fn create_account(
        &mut self,
        market_id: i64,
        asset_id: i64,
        owner: &str,
        min_balance: Option<i64>,
        max_balance: Option<i64>,
    ) -> (r: Result<i64, LedgerError>)
        requires
            old(self).wf(),
            old(self).schema_ok(market_id as int, asset_id as int),
            old(self).account_index(market_id as int, asset_id as int, owner@) is None,
            within_bounds(min_balance, max_balance, 0),
        ensures
            final(self).wf(),
            final(self).same_but_accounts(old(self)),
            match r {
                Ok(id) => {
                    &&& id == old(self).accounts.len()
                    &&& final(self).accounts@.drop_last() == old(self).accounts@
                    &&& final(self).accounts@.len() == old(self).accounts@.len() + 1
                    &&& has_key(final(self).accounts@.last(), market_id as int, asset_id as int, owner@)
                    &&& final(self).accounts@.last().min_balance == min_balance
                    &&& final(self).accounts@.last().max_balance == max_balance
                    &&& final(self).balances@ == old(self).balances@.push(0)
                },
                Err(e) => {
                    &&& e == LedgerError::Full
                    &&& old(self).accounts.len() == i64::MAX
                    &&& *final(self) == *old(self)
                },
            },
            r is Err <==> old(self).accounts.len() == i64::MAX,
    {
        if self.accounts.len() as u64 >= 9223372036854775807u64 {
            return Err(LedgerError::Full);
        }
        let id = self.accounts.len() as i64;
        let row = AccountRow {
            market_id,
            asset_id,
            owner: owner.to_owned(),
            min_balance,
            max_balance,
        };
        let ghost old_accounts = self.accounts@;
        let ghost old_balances = self.balances@;
        self.accounts.push(row);
        self.balances.push(0);
        proof {
            assert forall|a: int| #[trigger] total(self.accounts@, self.balances@, None, a) == 0 by {
                lemma_total_push(old_accounts, old_balances, row, None, a);
                assert(total(old_accounts, old_balances, None, a) == 0);
            }
            assert forall|i: int, j: int|
                0 <= i < self.accounts@.len() && 0 <= j < self.accounts@.len() && i != j implies !same_key(
                #[trigger] self.accounts@[i],
                #[trigger] self.accounts@[j],
            ) by {
                if i == old_accounts.len() as int {
                    assert(self.accounts@[j] == old_accounts[j]);
                    if same_key(self.accounts@[i], self.accounts@[j]) {
                        assert(has_key(old_accounts[j], market_id as int, asset_id as int, owner@));
                    }
                } else if j == old_accounts.len() as int {
                    assert(self.accounts@[i] == old_accounts[i]);
                    if same_key(self.accounts@[i], self.accounts@[j]) {
                        assert(has_key(old_accounts[i], market_id as int, asset_id as int, owner@));
                    }
                } else {
                    assert(self.accounts@[i] == old_accounts[i]);
                    assert(self.accounts@[j] == old_accounts[j]);
                }
            }
            assert forall|i: int| 0 <= i < self.accounts.len() implies within_bounds(
                #[trigger] self.accounts@[i].min_balance,
                self.accounts@[i].max_balance,
                self.balances@[i] as int,
            ) by {
                if i < old_accounts.len() {
                    assert(self.accounts@[i] == old_accounts[i]);
                }
            }
            assert forall|i: int| 0 <= i < self.accounts.len() implies self.schema_ok(
                (#[trigger] self.accounts@[i]).market_id as int,
                self.accounts@[i].asset_id as int,
            ) by {
                if i < old_accounts.len() {
                    assert(self.accounts@[i] == old_accounts[i]);
                }
            }
            assert(self.accounts@.drop_last() =~= old_accounts);
        }
        Ok(id)
    }

    /// Records an event, returning its id.
    ///
    /// Fails with `Full` when there is no room for another event.
    pub fn create_event(&mut self, owner: &str, description: &str) -> (r: Result<i64, LedgerError>)
        requires
            old(self).wf(),
        ensures
            final(self).wf(),
            final(self).same_but_events(old(self)),
            match r {
                Ok(id) => {
                    &&& id == old(self).events.len()
                    &&& final(self).events@.drop_last() == old(self).events@
                    &&& final(self).events@.len() == old(self).events@.len() + 1
                    &&& final(self).events@.last().owner@ == owner@
                    &&& final(self).events@.last().description@ == description@
                },
                Err(e) => e == LedgerError::Full && *final(self) == *old(self),
            },
            r is Err <==> old(self).events.len() == i64::MAX,
    {
        if self.events.len() as u64 >= 9223372036854775807u64 {
            return Err(LedgerError::Full);
        }
        let id = self.events.len() as i64;
        self.events.push(EventRow { owner: owner.to_owned(), description: description.to_owned() });
        assert(self.events@.drop_last() =~= old(self).events@);
        Ok(id)
    }

    /// The balance of an account.
    pub fn get_account_balance(&self, account_id: i64) -> (r: i64)
        requires
            self.wf(),
            0 <= account_id < self.accounts.len(),
        ensures
            r == self.balances@[account_id as int],
    {
        self.balances[account_id as usize]
    }

    /// Moves `amount` from one account to another account of the same asset.
    ///
    /// Fails, changing nothing, when a balance would leave its bounds or `i64`.
    pub fn create_transfer(&mut self, event_id: i64, from_account: i64, to_account: i64, amount: i64) -> (r: Result<(), LedgerError>)
        requires
            old(self).wf(),
            0 <= from_account < old(self).accounts.len(),
            0 <= to_account < old(self).accounts.len(),
            old(self).accounts@[from_account as int].asset_id == old(self).accounts@[to_account as int].asset_id,
        ensures
            final(self).wf(),
            match r {
                Ok(()) => {
                    &&& old(self).transfer_result(from_account as int, to_account as int, amount as int) == Ok::<Seq<i64>, LedgerError>(final(self).balances@)
                    &&& final(self).accounts@ == old(self).accounts@
                    &&& final(self).markets@ == old(self).markets@
                    &&& final(self).outcomes@ == old(self).outcomes@
                    &&& final(self).events@ == old(self).events@
                    &&& final(self).profits@ == old(self).profits@
                    &&& final(self).transfers@ == old(self).transfers@.push(TransferRow {
                        event_id,
                        from_account,
                        to_account,
                        amount,
                        from_balance: final(self).balances@[from_account as int],
                        to_balance: final(self).balances@[to_account as int],
                    })
                },
                Err(e) => {
                    &&& old(self).transfer_result(from_account as int, to_account as int, amount as int) == Err::<Seq<i64>, LedgerError>(e)
                    &&& *final(self) == *old(self)
                },
            },
    {
        let f = from_account as usize;
        let t = to_account as usize;
        if f != t {
            let bf = self.balances[f];
            let bt = self.balances[t];
            let nf = match bf.checked_sub(amount) {
                Some(v) => v,
                None => return Err(LedgerError::Overflow),
            };
            let nt = match bt.checked_add(amount) {
                Some(v) => v,
                None => return Err(LedgerError::Overflow),
            };
            if !within(self.accounts[f].min_balance, self.accounts[f].max_balance, nf)
                || !within(self.accounts[t].min_balance, self.accounts[t].max_balance, nt) {
                return Err(LedgerError::BalanceOutOfBounds);
            }
            let ghost b0 = self.balances@;
            self.balances.set(f, nf);
            let ghost b1 = self.balances@;
            self.balances.set(t, nt);
            proof {
                let asset = self.accounts@[f as int].asset_id as int;
                assert forall|a: int| #[trigger] total(self.accounts@, self.balances@, None, a) == 0 by {
                    lemma_total_update(self.accounts@, b0, f as int, nf, None, a);
                    lemma_total_update(self.accounts@, b1, t as int, nt, None, a);
                    assert(total(self.accounts@, b0, None, a) == 0);
                }
                assert forall|i: int| 0 <= i < self.accounts.len() implies within_bounds(
                    #[trigger] self.accounts@[i].min_balance,
                    self.accounts@[i].max_balance,
                    self.balances@[i] as int,
                ) by {
                    if i != f && i != t {
                        assert(self.balances@[i] == b0[i]);
                    }
                }
            }
        }
        let from_balance = self.balances[f];
        let to_balance = self.balances[t];
        self.transfers.push(TransferRow { event_id, from_account, to_account, amount, from_balance, to_balance });
        Ok(())
    }


    /// The ids of the outcomes of `market`, in order of creation.
    pub open spec fn outcome_ids(&self, market: int) -> Seq<int> {
        outcome_ids(self.outcomes@, market)
    }

    /// The id of the market with the given slug, if there is one.
    pub fn market_id_by_slug(&self, slug: &str) -> (r: Option<i64>)
        requires
            self.wf(),
        ensures
            match r {
                Some(id) => 1 <= id <= self.markets.len() && self.markets@[id - 1].slug@ == slug@,
                None => forall|i: int| 0 <= i < self.markets.len() ==> (#[trigger] self.markets@[i]).slug@ != slug@,
            },
    {
        let mut i: usize = 0;
        while i < self.markets.len()
            invariant
                self.wf(),
                i <= self.markets.len(),
                forall|j: int| 0 <= j < i ==> (#[trigger] self.markets@[j]).slug@ != slug@,
            decreases self.markets.len() - i,
        {
            if str_eq(self.markets[i].slug.as_str(), slug) {
                return Some((i + 1) as i64);
            }
            i = i + 1;
        }
        None
    }

    /// Adds a market, returning its id.
    ///
    /// Fails with `Full` when there is no room for another market.
    pub fn create_market(
        &mut self,
        slug: &str,
        kind: MarketKind,
        title: &str,
        description: &str,
        opens_at: Option<Datetime>,
        closes_at: Option<Datetime>,
    ) -> (r: Result<i64, LedgerError>)
        requires
            old(self).wf(),
            forall|i: int| 0 <= i < old(self).markets.len() ==> (#[trigger] old(self).markets@[i]).slug@ != slug@,
        ensures
            final(self).wf(),
            final(self).outcomes@ == old(self).outcomes@,
            final(self).accounts@ == old(self).accounts@,
            final(self).balances@ == old(self).balances@,
            final(self).events@ == old(self).events@,
            final(self).transfers@ == old(self).transfers@,
            final(self).profits@ == old(self).profits@,
            match r {
                Ok(id) => {
                    &&& id == old(self).markets.len() + 1
                    &&& final(self).markets@.drop_last() == old(self).markets@
                    &&& final(self).markets@.len() == old(self).markets@.len() + 1
                    &&& final(self).markets@.last().slug@ == slug@
                    &&& final(self).markets@.last().kind == kind
                    &&& final(self).markets@.last().title@ == title@
                    &&& final(self).markets@.last().description@ == description@
                    &&& final(self).markets@.last().opens_at == opens_at
                    &&& final(self).markets@.last().closes_at == closes_at
                },
                Err(e) => e == LedgerError::Full && *final(self) == *old(self),
            },
            r is Err <==> old(self).markets.len() + 1 >= i64::MAX,
    {
        if self.markets.len() as u64 >= 9223372036854775806u64 {
            return Err(LedgerError::Full);
        }
        let ghost old_markets = self.markets@;
        self.markets.push(
            MarketRow {
                slug: slug.to_owned(),
                kind,
                title: title.to_owned(),
                description: description.to_owned(),
                opens_at,
                closes_at,
            },
        );
        proof {
            assert forall|i: int, j: int|
                0 <= i < self.markets.len() && 0 <= j < self.markets.len() && i != j implies (#[trigger] self.markets@[i]).slug@
                    != (#[trigger] self.markets@[j]).slug@ by {
                if i < old_markets.len() {
                    assert(self.markets@[i] == old_markets[i]);
                }
                if j < old_markets.len() {
                    assert(self.markets@[j] == old_markets[j]);
                }
            }
            assert forall|i: int| 0 <= i < self.accounts.len() implies self.schema_ok(
                (#[trigger] self.accounts@[i]).market_id as int,
                self.accounts@[i].asset_id as int,
            ) by {
                assert(old(self).schema_ok(self.accounts@[i].market_id as int, self.accounts@[i].asset_id as int));
            }
            assert(self.markets@.drop_last() =~= old_markets);
        }
        Ok(self.markets.len() as i64)
    }

    /// Adds an outcome to a market, returning its id, which is also the id of
    /// the asset of its shares.
    ///
    /// Fails with `Full` when there is no room for another outcome.
    pub fn create_outcome(&mut self, market_id: i64, value: &str) -> (r: Result<i64, LedgerError>)
        requires
            old(self).wf(),
            1 <= market_id <= old(self).markets.len(),
        ensures
            final(self).wf(),
            final(self).markets@ == old(self).markets@,
            final(self).accounts@ == old(self).accounts@,
            final(self).balances@ == old(self).balances@,
            final(self).events@ == old(self).events@,
            final(self).transfers@ == old(self).transfers@,
            final(self).profits@ == old(self).profits@,
            match r {
                Ok(id) => {
                    &&& id == old(self).outcomes.len() + 1
                    &&& final(self).outcomes@.drop_last() == old(self).outcomes@
                    &&& final(self).outcomes@.len() == old(self).outcomes@.len() + 1
                    &&& final(self).outcomes@.last().market_id == market_id
                    &&& final(self).outcomes@.last().value@ == value@
                },
                Err(e) => e == LedgerError::Full && *final(self) == *old(self),
            },
            r is Err <==> old(self).outcomes.len() + 1 >= i64::MAX,
    {
        if self.outcomes.len() as u64 >= 9223372036854775806u64 {
            return Err(LedgerError::Full);
        }
        let ghost old_outcomes = self.outcomes@;
        self.outcomes.push(OutcomeRow { market_id, value: value.to_owned() });
        proof {
            assert forall|i: int| 0 <= i < self.accounts.len() implies self.schema_ok(
                (#[trigger] self.accounts@[i]).market_id as int,
                self.accounts@[i].asset_id as int,
            ) by {
                let m = self.accounts@[i].market_id as int;
                let a = self.accounts@[i].asset_id as int;
                assert(old(self).schema_ok(m, a));
                if m != 0 && a != 0 {
                    assert(self.outcomes@[a - 1] == old_outcomes[a - 1]);
                }
            }
            assert forall|i: int| 0 <= i < self.outcomes.len() implies 1 <= (#[trigger] self.outcomes@[i]).market_id
                <= self.markets.len() by {
                if i < old_outcomes.len() {
                    assert(self.outcomes@[i] == old_outcomes[i]);
                }
            }
            assert(self.outcomes@.drop_last() =~= old_outcomes);
        }
        Ok(self.outcomes.len() as i64)
    }

    /// The outcomes of a market, as (id, label), in order of creation.
    pub fn get_outcomes(&self, market_id: i64) -> (r: Vec<(i64, String)>)
        requires
            self.wf(),
        ensures
            r@.len() == self.outcome_ids(market_id as int).len(),
            forall|k: int| 0 <= k < r@.len() ==> {
                &&& (#[trigger] r@[k]).0 == self.outcome_ids(market_id as int)[k]
                &&& r@[k].1@ == self.outcomes@[r@[k].0 - 1].value@
            },
    {
        let mut r: Vec<(i64, String)> = Vec::new();
        let mut i: usize = 0;
        while i < self.outcomes.len()
            invariant
                self.wf(),
                i <= self.outcomes.len(),
                r@.len() == outcome_ids(self.outcomes@.subrange(0, i as int), market_id as int).len(),
                forall|k: int| 0 <= k < r@.len() ==> {
                    &&& (#[trigger] r@[k]).0 == outcome_ids(self.outcomes@.subrange(0, i as int), market_id as int)[k]
                    &&& 1 <= r@[k].0 <= i
                    &&& r@[k].1@ == self.outcomes@[r@[k].0 - 1].value@
                },
            decreases self.outcomes.len() - i,
        {
            let ghost before = r@;
            proof {
                assert(self.outcomes@.subrange(0, i + 1).drop_last() =~= self.outcomes@.subrange(0, i as int));
            }
            if self.outcomes[i].market_id == market_id {
                r.push(((i + 1) as i64, self.outcomes[i].value.clone()));
            }
            i = i + 1;
        }
        assert(self.outcomes@.subrange(0, self.outcomes.len() as int) =~= self.outcomes@);
        r
    }

    /// Records the profit an owner realized when a market resolved.
    pub fn create_realized_profit(
        &mut self,
        market_id: i64,
        event_id: i64,
        owner: &str,
        amount_in: i64,
        amount_out: i64,
    )
        requires
            old(self).wf(),
        ensures
            final(self).wf(),
            final(self).markets@ == old(self).markets@,
            final(self).outcomes@ == old(self).outcomes@,
            final(self).accounts@ == old(self).accounts@,
            final(self).balances@ == old(self).balances@,
            final(self).events@ == old(self).events@,
            final(self).transfers@ == old(self).transfers@,
            final(self).profits@.drop_last() == old(self).profits@,
            final(self).profits@.len() == old(self).profits@.len() + 1,
            final(self).profits@.last().market_id == market_id,
            final(self).profits@.last().event_id == event_id,
            final(self).profits@.last().owner@ == owner@,
            final(self).profits@.last().amount_in == amount_in,
            final(self).profits@.last().amount_out == amount_out,
    {
        self.profits.push(
            ProfitRow { market_id, event_id, owner: owner.to_owned(), amount_in, amount_out },
        );
        assert(self.profits@.drop_last() =~= old(self).profits@);
    }

    /// The owners and balances of the global points accounts, in order of creation.
    pub fn get_points_accounts(&self) -> (r: Vec<(String, i64)>)
        requires
            self.wf(),
        ensures
            r@.len() == points_account_positions(self.accounts@).len(),
            forall|q: int| 0 <= q < r@.len() ==> {
                let i = points_account_positions(self.accounts@)[q];
                &&& (#[trigger] r@[q]).0@ == self.accounts@[i].owner@
                &&& r@[q].1 == self.balances@[i]
            },
            // Every row is an owner's global points account and its balance,
            // each owner once, and every global points account is there.
            forall|q: int| 0 <= q < r@.len() ==> (self.account_index(0, 0, (#[trigger] r@[q]).0@) matches Some(i)
                && r@[q].1 == self.balances@[i]),
            forall|q1: int, q2: int| 0 <= q1 < q2 < r@.len() ==> (#[trigger] r@[q1]).0@ != (#[trigger] r@[q2]).0@,
            forall|i: int| 0 <= i < self.accounts.len() && (#[trigger] self.accounts@[i]).market_id == 0
                && self.accounts@[i].asset_id == 0 ==> exists|q: int| 0 <= q < r@.len() && (#[trigger] r@[q]).0@
                == self.accounts@[i].owner@,
    {
        let mut r: Vec<(String, i64)> = Vec::new();
        let mut i: usize = 0;
        while i < self.accounts.len()
            invariant
                self.wf(),
                i <= self.accounts.len(),
                r@.len() == points_account_positions(self.accounts@.subrange(0, i as int)).len(),
                forall|q: int| 0 <= q < r@.len() ==> {
                    let j = points_account_positions(self.accounts@.subrange(0, i as int))[q];
                    &&& (#[trigger] r@[q]).0@ == self.accounts@[j].owner@
                    &&& r@[q].1 == self.balances@[j]
                },
            decreases self.accounts.len() - i,
        {
            let ghost pre = self.accounts@.subrange(0, i as int);
            let ghost post = self.accounts@.subrange(0, i + 1);
            let ghost r0 = r@;
            proof {
                assert(post.drop_last() =~= pre);
                assert(post.last() == self.accounts@[i as int]);
                lemma_points_positions_bounds(pre);
                lemma_points_positions_bounds(post);
            }
            if self.accounts[i].market_id == 0 && self.accounts[i].asset_id == 0 {
                r.push((self.accounts[i].owner.clone(), self.balances[i]));
                proof {
                    assert(points_account_positions(post) == points_account_positions(pre).push(i as int));
                    assert forall|q: int| 0 <= q < r@.len() implies {
                        let j = points_account_positions(post)[q];
                        &&& (#[trigger] r@[q]).0@ == self.accounts@[j].owner@
                        &&& r@[q].1 == self.balances@[j]
                    } by {
                        if q < r0.len() {
                            assert(r@[q] == r0[q]);
                            assert(points_account_positions(post)[q] == points_account_positions(pre)[q]);
                        } else {
                            assert(q == points_account_positions(pre).len());
                            assert(points_account_positions(post)[q] == i);
                        }
                    }
                }
            } else {
                proof {
                    assert(points_account_positions(post) == points_account_positions(pre));
                    assert forall|q: int| 0 <= q < r@.len() implies {
                        let j = points_account_positions(post)[q];
                        &&& (#[trigger] r@[q]).0@ == self.accounts@[j].owner@
                        &&& r@[q].1 == self.balances@[j]
                    } by {
                        assert(points_account_positions(post)[q] == points_account_positions(pre)[q]);
                    }
                }
            }
            i = i + 1;
        }
        assert(self.accounts@.subrange(0, i as int) =~= self.accounts@);
        proof {
            let p = points_account_positions(self.accounts@);
            law_points_accounts_are_the_global_ones(self.accounts@);
            assert forall|q: int| 0 <= q < r@.len() implies (self.account_index(0, 0, (#[trigger] r@[q]).0@) matches Some(
                j,
            ) && r@[q].1 == self.balances@[j]) by {
                let j = p[q];
                assert(has_key(self.accounts@[j], 0, 0, r@[q].0@));
                lemma_find_account(self.accounts@, 0, 0, r@[q].0@, j);
            }
            assert forall|q1: int, q2: int| 0 <= q1 < q2 < r@.len() implies (#[trigger] r@[q1]).0@ != (#[trigger] r@[q2]).0@ by {
                let j1 = p[q1];
                let j2 = p[q2];
                assert(j1 < j2);
                if r@[q1].0@ == r@[q2].0@ {
                    assert(same_key(self.accounts@[j1], self.accounts@[j2]));
                }
            }
            assert forall|k: int| 0 <= k < self.accounts.len() && (#[trigger] self.accounts@[k]).market_id == 0
                && self.accounts@[k].asset_id == 0 implies exists|q: int| 0 <= q < r@.len() && (#[trigger] r@[q]).0@
                == self.accounts@[k].owner@ by {
                let q = choose|q: int| 0 <= q < p.len() && #[trigger] p[q] == k;
                assert(r@[q].0@ == self.accounts@[k].owner@);
            }
        }
        r
    }

    /// The balance of the account with the given key; zero when there is none.
    pub fn balance_of_key(&self, market_id: i64, asset_id: i64, owner: &str) -> (r: i64)
        requires
            self.wf(),
        ensures
            r == self.balance_of(market_id as int, asset_id as int, owner@),
    {
        match self.get_account_id(market_id, asset_id, owner) {
            Some(i) => self.balances[i as usize],
            None => 0,
        }
    }

    /// The id of the account with the given key, if there is one.
    pub fn get_account_id(&self, market_id: i64, asset_id: i64, owner: &str) -> (r: Option<i64>)
        requires
            self.wf(),
        ensures
            match r {
                Some(i) => self.account_index(market_id as int, asset_id as int, owner@) == Some(
                    i as int,
                ),
                None => self.account_index(market_id as int, asset_id as int, owner@) is None,
            },
    {
        let mut i: usize = 0;
        while i < self.accounts.len()
            invariant
                self.wf(),
                i <= self.accounts.len(),
                forall|j: int|
                    0 <= j < i ==> !has_key(
                        #[trigger] self.accounts@[j],
                        market_id as int,
                        asset_id as int,
                        owner@,
                    ),
            decreases self.accounts.len() - i,
        {
            let row = &self.accounts[i];
            if row.market_id == market_id && row.asset_id == asset_id && str_eq(
                row.owner.as_str(),
                owner,
            ) {
                proof {
                    lemma_find_account(self.accounts@, market_id as int, asset_id as int, owner@, i as int);
                }
                return Some(i as i64);
            }
            i = i + 1;
        }
        None
    }
}


pub proof fn lemma_grows_trans(a: &Ledger, b: &Ledger, c: &Ledger)
    requires
        a.accounts.len() == a.balances.len(),
        b.accounts.len() == b.balances.len(),
        c.accounts.len() == c.balances.len(),
        b.grows_from(a),
        c.grows_from(b),
    ensures
        c.grows_from(a),
{
    assert(c.accounts@.subrange(0, a.accounts.len() as int) =~= b.accounts@.subrange(0, a.accounts.len() as int));
    assert(c.balances@.subrange(0, a.accounts.len() as int) =~= b.balances@.subrange(0, a.accounts.len() as int));
    assert forall|i: int| a.accounts.len() <= i < c.balances.len() implies #[trigger] c.balances@[i] == 0 by {
        if i < b.accounts.len() {
            assert(c.balances@[i] == c.balances@.subrange(0, b.accounts.len() as int)[i]);
            assert(b.balances@[i] == 0);
        }
    }
}

pub proof fn lemma_grows_refl(a: &Ledger)
    requires
        a.accounts.len() == a.balances.len(),
    ensures
        a.grows_from(a),
{
    assert(a.accounts@.subrange(0, a.accounts.len() as int) =~= a.accounts@);
    assert(a.balances@.subrange(0, a.accounts.len() as int) =~= a.balances@);
}

/// Adding accounts with zero balances changes no balance and no total.
pub proof fn lemma_grows_balances(new: &Ledger, old: &Ledger)
    requires
        old.wf(),
        new.wf(),
        new.grows_from(old),
    ensures
        forall|m: int, a: int, o: Seq<char>| #[trigger] new.balance_of(m, a, o) == old.balance_of(m, a, o),
        forall|m: int, a: int, o: Seq<char>|
            (#[trigger] old.account_index(m, a, o)) is Some ==> new.account_index(m, a, o) == old.account_index(m, a, o),
        forall|m: Option<int>, a: int|
            #[trigger] total(new.accounts@, new.balances@, m, a) == total(old.accounts@, old.balances@, m, a),
{
    let n = old.accounts.len() as int;
    assert forall|m: int, a: int, o: Seq<char>| (#[trigger] old.account_index(m, a, o)) is Some implies new.account_index(m, a, o) == old.account_index(m, a, o) by {
        let i = old.account_index(m, a, o).unwrap();
        assert(new.accounts@[i] == new.accounts@.subrange(0, n)[i]);
        lemma_find_account(new.accounts@, m, a, o, i);
    }
    assert forall|m: int, a: int, o: Seq<char>| #[trigger] new.balance_of(m, a, o) == old.balance_of(m, a, o) by {
        match old.account_index(m, a, o) {
            Some(i) => {
                assert(new.account_index(m, a, o) == Some(i));
                assert(new.balances@[i] == new.balances@.subrange(0, n)[i]);
            },
            None => {
                match new.account_index(m, a, o) {
                    Some(j) => {
                        if j < n {
                            assert(new.accounts@[j] == new.accounts@.subrange(0, n)[j]);
                            assert(has_key(old.accounts@[j], m, a, o));
                        }
                    },
                    None => {},
                }
            },
        }
    }
    assert forall|m: Option<int>, a: int| #[trigger] total(new.accounts@, new.balances@, m, a) == total(old.accounts@, old.balances@, m, a) by {
        lemma_total_zero_tail(new.accounts@, new.balances@, n, m, a);
    }
}

/// Accounts past position `n` with zero balances add nothing to a total.
pub proof fn lemma_total_zero_tail(accounts: Seq<AccountRow>, balances: Seq<i64>, n: int, market: Option<int>, asset: int)
    requires
        accounts.len() == balances.len(),
        0 <= n <= accounts.len(),
        forall|i: int| n <= i < balances.len() ==> #[trigger] balances[i] == 0,
    ensures
        total(accounts, balances, market, asset) == total(accounts.subrange(0, n), balances.subrange(0, n), market, asset),
    decreases accounts.len(),
{
    if accounts.len() > n {
        assert(accounts.drop_last() =~= accounts.subrange(0, accounts.len() - 1));
        assert(balances.drop_last() =~= balances.subrange(0, balances.len() - 1));
        lemma_total_zero_tail(accounts.drop_last(), balances.drop_last(), n, market, asset);
        assert(accounts.drop_last().subrange(0, n) =~= accounts.subrange(0, n));
        assert(balances.drop_last().subrange(0, n) =~= balances.subrange(0, n));
    } else {
        assert(accounts.subrange(0, n) =~= accounts);
        assert(balances.subrange(0, n) =~= balances);
    }
}

/// How a transfer between two distinct accounts changes the balance of each key.
pub proof fn lemma_transfer_balances(new: &Ledger, old: &Ledger, f: int, t: int, nf: i64, nt: i64)
    requires
        old.wf(),
        new.wf(),
        new.accounts@ == old.accounts@,
        0 <= f < old.accounts.len(),
        0 <= t < old.accounts.len(),
        f != t,
        new.balances@ == old.balances@.update(f, nf).update(t, nt),
    ensures
        forall|m: int, a: int, o: Seq<char>| #[trigger] new.balance_of(m, a, o) == if has_key(old.accounts@[f], m, a, o) {
            nf as int
        } else if has_key(old.accounts@[t], m, a, o) {
            nt as int
        } else {
            old.balance_of(m, a, o)
        },
        new.account_index(old.accounts@[f].market_id as int, old.accounts@[f].asset_id as int, old.accounts@[f].owner@) == Some(f),
        new.account_index(old.accounts@[t].market_id as int, old.accounts@[t].asset_id as int, old.accounts@[t].owner@) == Some(t),
{
    let accs = old.accounts@;
    lemma_find_account(accs, accs[f].market_id as int, accs[f].asset_id as int, accs[f].owner@, f);
    lemma_find_account(accs, accs[t].market_id as int, accs[t].asset_id as int, accs[t].owner@, t);
    assert forall|m: int, a: int, o: Seq<char>| #[trigger] new.balance_of(m, a, o) == if has_key(accs[f], m, a, o) {
        nf as int
    } else if has_key(accs[t], m, a, o) {
        nt as int
    } else {
        old.balance_of(m, a, o)
    } by {
        if has_key(accs[f], m, a, o) {
            lemma_find_account(accs, m, a, o, f);
        } else if has_key(accs[t], m, a, o) {
            lemma_find_account(accs, m, a, o, t);
        } else {
            match old.account_index(m, a, o) {
                Some(i) => {
                    assert(has_key(accs[i], m, a, o));
                    assert(i != f && i != t);
                },
                None => {},
            }
        }
    }
}


/// How a transfer between two distinct accounts changes every total.
pub proof fn lemma_transfer_totals(new: &Ledger, old: &Ledger, f: int, t: int, amount: int)
    requires
        old.wf(),
        new.accounts@ == old.accounts@,
        0 <= f < old.accounts.len(),
        0 <= t < old.accounts.len(),
        f != t,
        new.balances@ == old.balances@.update(f, (old.balances@[f] - amount) as i64).update(t, (old.balances@[t] + amount) as i64),
        i64::MIN <= old.balances@[f] - amount <= i64::MAX,
        i64::MIN <= old.balances@[t] + amount <= i64::MAX,
    ensures
        forall|m: Option<int>, a: int| #[trigger] total(new.accounts@, new.balances@, m, a) == total(old.accounts@, old.balances@, m, a)
            - (if counts(old.accounts@[f], m, a) { amount } else { 0 })
            + (if counts(old.accounts@[t], m, a) { amount } else { 0 }),
{
    let b1 = old.balances@.update(f, (old.balances@[f] - amount) as i64);
    assert forall|m: Option<int>, a: int| #[trigger] total(new.accounts@, new.balances@, m, a) == total(old.accounts@, old.balances@, m, a)
        - (if counts(old.accounts@[f], m, a) { amount } else { 0 })
        + (if counts(old.accounts@[t], m, a) { amount } else { 0 }) by {
        lemma_total_update(old.accounts@, old.balances@, f, (old.balances@[f] - amount) as i64, m, a);
        lemma_total_update(old.accounts@, b1, t, (old.balances@[t] + amount) as i64, m, a);
    }
}

/// Whether a balance lies within optional bounds.
pub fn within(min_balance: Option<i64>, max_balance: Option<i64>, balance: i64) -> (r: bool)
    ensures
        r == within_bounds(min_balance, max_balance, balance as int),
{
    let above = match min_balance {
        Some(lo) => lo <= balance,
        None => true,
    };
    let below = match max_balance {
        Some(hi) => balance <= hi,
        None => true,
    };
    above && below
}

/// The owner name of the system as a string.
pub fn system_owner_string() -> (r: String)
    ensures
        r@ == system_owner(),
{
    let mut s = String::new();
    crate::text::push_char(&mut s, 'S');
    crate::text::push_char(&mut s, 'Y');
    crate::text::push_char(&mut s, 'S');
    crate::text::push_char(&mut s, 'T');
    crate::text::push_char(&mut s, 'E');
    crate::text::push_char(&mut s, 'M');
    assert(s@ =~= system_owner());
    s
}

/// A total of an asset that no account holds is zero.
proof fn lemma_total_absent(accounts: Seq<AccountRow>, balances: Seq<i64>, asset: int)
    requires
        forall|i: int| 0 <= i < accounts.len() ==> (#[trigger] accounts[i]).asset_id != asset,
    ensures
        total(accounts, balances, None, asset) == 0,
    decreases accounts.len(),
{
    if accounts.len() > 0 && balances.len() > 0 {
        let d = accounts.drop_last();
        assert forall|i: int| 0 <= i < d.len() implies (#[trigger] d[i]).asset_id != asset by {
            assert(d[i] == accounts[i]);
        }
        lemma_total_absent(d, balances.drop_last(), asset);
        assert(accounts.last() == accounts[accounts.len() - 1]);
    }
}

impl Ledger {
    /// The sum of the balances of `asset` over all accounts.
    fn asset_total(&self, asset: i64) -> (r: i128)
        requires
            self.accounts.len() == self.balances.len(),
        ensures
            r == total(self.accounts@, self.balances@, None, asset as int),
    {
        let n = self.accounts.len();
        let mut sum: i128 = 0;
        let mut j: usize = 0;
        while j < n
            invariant
                n == self.accounts.len(),
                n == self.balances.len(),
                j <= n,
                sum == total(self.accounts@.take(j as int), self.balances@.take(j as int), None, asset as int),
                -(j as int) * 9223372036854775808 <= sum <= (j as int) * 9223372036854775808,
            decreases n - j,
        {
            proof {
                assert(self.accounts@.take(j + 1).drop_last() =~= self.accounts@.take(j as int));
                assert(self.balances@.take(j + 1).drop_last() =~= self.balances@.take(j as int));
                assert(self.accounts@.take(j + 1).last() == self.accounts@[j as int]);
                assert(self.balances@.take(j + 1).last() == self.balances@[j as int]);
            }
            if self.accounts[j].asset_id == asset {
                sum = sum + self.balances[j] as i128;
            }
            j = j + 1;
        }
        proof {
            assert(self.accounts@.take(n as int) =~= self.accounts@);
            assert(self.balances@.take(n as int) =~= self.balances@);
        }
        sum
    }

    /// Whether an account of `asset` may exist in `market`; see `schema_ok`.
    pub fn is_schema_ok(&self, market: i64, asset: i64) -> (r: bool)
        ensures
            r == self.schema_ok(market as int, asset as int),
    {
        if market < 0 || market as u64 > self.markets.len() as u64 || asset < 0 || asset as u64 > self.outcomes.len() as u64 {
            return false;
        }
        market == 0 || asset == 0 || self.outcomes[(asset - 1) as usize].market_id == market
    }

    /// Whether the ledger is consistent; see `wf`. A ledger read from
    /// storage can be checked with it before any operation runs on it.
    pub fn is_wf(&self) -> (r: bool)
        ensures
            r == self.wf(),
    {
        let n = self.accounts.len();
        if n != self.balances.len() || n < 1 || n as u64 > 9223372036854775807u64
            || self.events.len() as u64 > 9223372036854775807u64
            || self.markets.len() as u64 >= 9223372036854775807u64
            || self.outcomes.len() as u64 >= 9223372036854775807u64 {
            return false;
        }
        let system = system_owner_string();
        let first = &self.accounts[0];
        if !(first.market_id == 0 && first.asset_id == 0 && str_eq(first.owner.as_str(), system.as_str())
            && first.min_balance.is_none() && first.max_balance.is_none()) {
            return false;
        }
        // Bounds, schema and totals, account by account.
        let mut i: usize = 0;
        while i < n
            invariant
                n == self.accounts.len(),
                n == self.balances.len(),
                i <= n,
                forall|k: int| 0 <= k < i ==> within_bounds(
                    #[trigger] self.accounts@[k].min_balance,
                    self.accounts@[k].max_balance,
                    self.balances@[k] as int,
                ),
                forall|k: int| 0 <= k < i ==> self.schema_ok(
                    (#[trigger] self.accounts@[k]).market_id as int,
                    self.accounts@[k].asset_id as int,
                ),
                forall|k: int| 0 <= k < i ==> total(
                    self.accounts@,
                    self.balances@,
                    None,
                    (#[trigger] self.accounts@[k]).asset_id as int,
                ) == 0,
            decreases n - i,
        {
            let row = &self.accounts[i];
            if !within(row.min_balance, row.max_balance, self.balances[i]) {
                return false;
            }
            if !self.is_schema_ok(row.market_id, row.asset_id) {
                return false;
            }
            if self.asset_total(row.asset_id) != 0 {
                return false;
            }
            i = i + 1;
        }
        proof {
            assert forall|a: int| #[trigger] total(self.accounts@, self.balances@, None, a) == 0 by {
                if exists|k: int| 0 <= k < n && self.accounts@[k].asset_id == a {
                    let k = choose|k: int| 0 <= k < n && self.accounts@[k].asset_id == a;
                    assert(total(self.accounts@, self.balances@, None, self.accounts@[k].asset_id as int) == 0);
                } else {
                    lemma_total_absent(self.accounts@, self.balances@, a);
                }
            }
        }
        // No two accounts share a key.
        let mut i: usize = 0;
        while i < n
            invariant
                n == self.accounts.len(),
                i <= n,
                forall|k: int, l: int| 0 <= k < i && 0 <= l < n && k != l ==> !same_key(
                    #[trigger] self.accounts@[k],
                    #[trigger] self.accounts@[l],
                ),
            decreases n - i,
        {
            let mut j: usize = 0;
            while j < n
                invariant
                    n == self.accounts.len(),
                    i < n,
                    j <= n,
                    forall|k: int, l: int| 0 <= k < i && 0 <= l < n && k != l ==> !same_key(
                        #[trigger] self.accounts@[k],
                        #[trigger] self.accounts@[l],
                    ),
                    forall|l: int| 0 <= l < j && l != i ==> !same_key(self.accounts@[i as int], #[trigger] self.accounts@[l]),
                decreases n - j,
            {
                let a = &self.accounts[i];
                let b = &self.accounts[j];
                if j != i && a.market_id == b.market_id && a.asset_id == b.asset_id && str_eq(a.owner.as_str(), b.owner.as_str()) {
                    assert(same_key(self.accounts@[j as int], self.accounts@[i as int]));
                    return false;
                }
                j = j + 1;
            }
            i = i + 1;
        }
        // Outcomes belong to markets.
        let mut i: usize = 0;
        while i < self.outcomes.len()
            invariant
                i <= self.outcomes.len(),
                forall|k: int| 0 <= k < i ==> 1 <= (#[trigger] self.outcomes@[k]).market_id <= self.markets.len(),
            decreases self.outcomes.len() - i,
        {
            let m = self.outcomes[i].market_id;
            if m < 1 || m as u64 > self.markets.len() as u64 {
                return false;
            }
            i = i + 1;
        }
        // No two markets share a slug.
        let mut i: usize = 0;
        while i < self.markets.len()
            invariant
                i <= self.markets.len(),
                forall|k: int, l: int|
                    0 <= k < i && 0 <= l < self.markets.len() && k != l ==> (#[trigger] self.markets@[k]).slug@
                        != (#[trigger] self.markets@[l]).slug@,
            decreases self.markets.len() - i,
        {
            let mut j: usize = 0;
            while j < self.markets.len()
                invariant
                    i < self.markets.len(),
                    j <= self.markets.len(),
                    forall|k: int, l: int|
                        0 <= k < i && 0 <= l < self.markets.len() && k != l ==> (#[trigger] self.markets@[k]).slug@
                            != (#[trigger] self.markets@[l]).slug@,
                    forall|l: int| 0 <= l < j && l != i ==> self.markets@[i as int].slug@ != (#[trigger] self.markets@[l]).slug@,
                decreases self.markets.len() - j,
            {
                if j != i && str_eq(self.markets[i].slug.as_str(), self.markets[j].slug.as_str()) {
                    return false;
                }
                j = j + 1;
            }
            i = i + 1;
        }
        proof {
            assert(has_key(self.accounts@[0], 0, 0, system_owner()));
        }
        true
    }
}

} // verus!
