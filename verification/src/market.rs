//! Markets and their outcomes, without balances: the first edition of the
//! market model, which sits on the `finance` identifiers.

use vstd::prelude::*;

use crate::config::{MarketConfig, MarketKind};
use crate::finance::{AssetId, MarketId};
use crate::ledger::{lemma_outcome_ids, lemma_outcome_ids_append_other, lemma_outcome_ids_append_own, Ledger, LedgerError};
use crate::model::{
    fresh_configs, has_market_slug, lemma_fresh_from_configs, lemma_fresh_prefix, lemma_totals_push, lemma_totals_take, outcome_total,
    outcomes_of, row_of, slug_repeated,
};

verus! {

#[derive(Copy, Clone, Debug)]
pub struct OutcomeId(pub i64, pub MarketId);

/// Convert an outcome to its corresponding asset.
///
/// The id of an outcome is the id of the asset of its shares; besides the
/// outcome assets there is the native asset "points", with id 0.
impl From<OutcomeId> for AssetId {
    fn from(outcome_id: OutcomeId) -> (r: AssetId) {
        AssetId(outcome_id.0)
    }
}

impl vstd::std_specs::convert::FromSpecImpl<OutcomeId> for AssetId {
    open spec fn obeys_from_spec() -> bool {
        true
    }

    open spec fn from_spec(outcome_id: OutcomeId) -> AssetId {
        AssetId(outcome_id.0)
    }
}

#[derive(Clone, Debug)]
pub struct Outcome {
    pub id: OutcomeId,
    pub value: String,
}

#[derive(Clone, Debug)]
pub struct Market {
    pub id: MarketId,
    pub slug: String,
    pub title: String,
    pub description: String,
    pub kind: MarketKind,
    pub outcomes: Vec<Outcome>,
}

impl Market {
    /// The market is what the ledger holds of it: its row, and its outcomes
    /// in order of creation.
    pub open spec fn snapshot_of(&self, tx: &Ledger) -> bool {
        let m = self.id.0 as int;
        let ids = tx.outcome_ids(m);
        &&& 1 <= m <= tx.markets.len()
        &&& self.slug@ == tx.markets@[m - 1].slug@
        &&& self.title@ == tx.markets@[m - 1].title@
        &&& self.description@ == tx.markets@[m - 1].description@
        &&& self.kind == tx.markets@[m - 1].kind
        &&& self.outcomes.len() == ids.len()
        &&& forall|k: int| 0 <= k < ids.len() ==> {
            &&& (#[trigger] self.outcomes@[k]).id == OutcomeId(ids[k] as i64, self.id)
            &&& self.outcomes@[k].value@ == tx.outcomes@[ids[k] - 1].value@
        }
    }
}

/// Look up a market by its slug, with its outcomes.
pub fn get_market_by_slug(tx: &Ledger, slug: &str) -> (r: Result<Option<Market>, LedgerError>)
    requires
        tx.wf(),
    ensures
        match r {
            Ok(Some(market)) => market.snapshot_of(tx) && market.slug@ == slug@,
            Ok(None) => forall|i: int| 0 <= i < tx.markets.len() ==> (#[trigger] tx.markets@[i]).slug@ != slug@,
            Err(_) => false,
        },
{
    let market_id = match tx.market_id_by_slug(slug) {
        Some(id) => id,
        None => return Ok(None),
    };
    let row = &tx.markets[(market_id - 1) as usize];
    let rows = tx.get_outcomes(market_id);
    let mut outcomes: Vec<Outcome> = Vec::new();
    let mut k: usize = 0;
    while k < rows.len()
        invariant
            k <= rows.len(),
            rows@.len() == tx.outcome_ids(market_id as int).len(),
            forall|q: int| 0 <= q < rows@.len() ==> {
                &&& (#[trigger] rows@[q]).0 == tx.outcome_ids(market_id as int)[q]
                &&& rows@[q].1@ == tx.outcomes@[rows@[q].0 - 1].value@
            },
            outcomes@.len() == k,
            forall|q: int| 0 <= q < k ==> {
                &&& (#[trigger] outcomes@[q]).id == OutcomeId(rows@[q].0, MarketId(market_id))
                &&& outcomes@[q].value@ == rows@[q].1@
            },
        decreases rows.len() - k,
    {
        outcomes.push(Outcome { id: OutcomeId(rows[k].0, MarketId(market_id)), value: rows[k].1.clone() });
        k = k + 1;
    }
    Ok(Some(Market {
        id: MarketId(market_id),
        slug: row.slug.clone(),
        title: row.title.clone(),
        description: row.description.clone(),
        kind: row.kind,
        outcomes,
    }))
}

/// Create a market with its outcomes, in the order of the configuration.
///
/// Fails with `Full` when there is no room for another market or outcome.
pub fn create_market(tx: &mut Ledger, market: &MarketConfig) -> (r: Result<MarketId, LedgerError>)
    requires
        old(tx).wf(),
        forall|i: int| 0 <= i < old(tx).markets.len() ==> (#[trigger] old(tx).markets@[i]).slug@ != market.slug@,
    ensures
        final(tx).wf(),
        final(tx).accounts@ == old(tx).accounts@,
        final(tx).balances@ == old(tx).balances@,
        final(tx).events@ == old(tx).events@,
        final(tx).transfers@ == old(tx).transfers@,
        final(tx).profits@ == old(tx).profits@,
        old(tx).markets.len() <= final(tx).markets.len(),
        final(tx).markets@.subrange(0, old(tx).markets.len() as int) == old(tx).markets@,
        match r {
            Ok(id) => {
                &&& id.0 == old(tx).markets.len() + 1
                &&& final(tx).markets@.drop_last() == old(tx).markets@
                &&& final(tx).markets@.len() == old(tx).markets@.len() + 1
                &&& final(tx).markets@.last().slug@ == market.slug@
                &&& final(tx).markets@.last().title@ == market.title@
                &&& final(tx).markets@.last().description@ == market.description@
                &&& final(tx).markets@.last().kind == market.kind
                &&& final(tx).markets@.last().opens_at == market.opens_at
                &&& final(tx).markets@.last().closes_at == market.closes_at
                &&& final(tx).outcomes@.subrange(0, old(tx).outcomes.len() as int) == old(tx).outcomes@
                &&& final(tx).outcomes.len() == old(tx).outcomes.len() + market.outcomes.len()
                &&& forall|k: int| 0 <= k < market.outcomes.len() ==> {
                    &&& (#[trigger] final(tx).outcomes@[old(tx).outcomes.len() + k]).market_id == id.0
                    &&& final(tx).outcomes@[old(tx).outcomes.len() + k].value@ == market.outcomes@[k]@
                }
            },
            Err(e) => e == LedgerError::Full,
        },
        r is Err <==> (old(tx).markets.len() + 1 >= i64::MAX || old(tx).outcomes.len() + market.outcomes.len()
            >= i64::MAX),
{
    let ghost t0 = *tx;
    let market_id = match tx.create_market(
        market.slug.as_str(),
        market.kind,
        market.title.as_str(),
        market.description.as_str(),
        market.opens_at,
        market.closes_at,
    ) {
        Ok(id) => id,
        Err(e) => {
            assert(tx.markets@.subrange(0, old(tx).markets.len() as int) =~= old(tx).markets@);
            return Err(e);
        },
    };
    let ghost t1 = *tx;
    assert(tx.markets@.subrange(0, old(tx).markets.len() as int) =~= old(tx).markets@);
    assert(tx.markets@.drop_last() == old(tx).markets@);
    let mut k: usize = 0;
    while k < market.outcomes.len()
        invariant
            tx.wf(),
            market_id == t0.markets.len() + 1,
            t0 == *old(tx),
            t1.markets@.len() == t0.markets@.len() + 1,
            t1.markets@.drop_last() == t0.markets@,
            t1.markets@.last().slug@ == market.slug@,
            t1.markets@.last().title@ == market.title@,
            t1.markets@.last().description@ == market.description@,
            t1.markets@.last().kind == market.kind,
            t1.markets@.subrange(0, t0.markets.len() as int) == t0.markets@,
            t0.outcomes.len() + 1 < i64::MAX || k == 0,
            k <= market.outcomes.len(),
            tx.markets@ == t1.markets@,
            tx.accounts@ == t0.accounts@,
            tx.balances@ == t0.balances@,
            tx.events@ == t0.events@,
            tx.transfers@ == t0.transfers@,
            tx.profits@ == t0.profits@,
            tx.outcomes@.subrange(0, t0.outcomes.len() as int) == t0.outcomes@,
            tx.outcomes.len() == t0.outcomes.len() + k,
            forall|q: int| 0 <= q < k ==> {
                &&& (#[trigger] tx.outcomes@[t0.outcomes.len() + q]).market_id == market_id
                &&& tx.outcomes@[t0.outcomes.len() + q].value@ == market.outcomes@[q]@
            },
        decreases market.outcomes.len() - k,
    {
        let ghost before = tx.outcomes@;
        match tx.create_outcome(market_id, market.outcomes[k].as_str()) {
            Ok(_) => {},
            Err(e) => {
                assert(t0.outcomes.len() + market.outcomes.len() >= i64::MAX);
                return Err(e);
            },
        }
        proof {
            assert(tx.outcomes@.subrange(0, t0.outcomes.len() as int) =~= before.subrange(0, t0.outcomes.len() as int));
            assert forall|q: int| 0 <= q < k + 1 implies {
                &&& (#[trigger] tx.outcomes@[t0.outcomes.len() + q]).market_id == market_id
                &&& tx.outcomes@[t0.outcomes.len() + q].value@ == market.outcomes@[q]@
            } by {
                if q < k {
                    assert(tx.outcomes@[t0.outcomes.len() + q] == before[t0.outcomes.len() + q]);
                }
            }
        }
        k = k + 1;
    }
    Ok(MarketId(market_id))
}

/// Create the configured markets if they don't yet exist.
///
/// A market whose slug is taken, in the ledger or by an earlier entry of the
/// list, is skipped; the others are created in order, with their outcomes.
///
/// Fails with `Full` exactly when there is no room for the rows of the new
/// markets; the rows added before that stay.
pub fn ensure_markets(tx: &mut Ledger, markets: &[MarketConfig]) -> (r: Result<(), LedgerError>)
    requires
        old(tx).wf(),
    ensures
        final(tx).wf(),
        final(tx).accounts@ == old(tx).accounts@,
        final(tx).balances@ == old(tx).balances@,
        final(tx).events@ == old(tx).events@,
        final(tx).markets@.subrange(0, old(tx).markets.len() as int) == old(tx).markets@,
        r is Ok ==> forall|k: int| 0 <= k < markets@.len() ==> #[trigger] has_market_slug(final(tx), markets@[k].slug@),
        r is Ok ==> {
            let fresh = fresh_configs(old(tx), markets@);
            let first = old(tx).markets.len() + 1;
            &&& final(tx).markets.len() == old(tx).markets.len() + fresh.len()
            &&& forall|q: int| 0 <= q < fresh.len() ==> row_of(#[trigger] final(tx).markets@[old(tx).markets.len() + q], fresh[q])
            &&& forall|q: int| 0 <= q < fresh.len() ==> outcomes_of(final(tx), first + q, #[trigger] fresh[q])
        },
        r is Err ==> r == Err::<(), LedgerError>(LedgerError::Full),
        r is Err <==> fresh_configs(old(tx), markets@).len() > 0 && (old(tx).markets.len() + fresh_configs(
            old(tx),
            markets@,
        ).len() >= i64::MAX || old(tx).outcomes.len() + outcome_total(fresh_configs(old(tx), markets@)) >= i64::MAX),
{
    let ghost first = old(tx).markets.len() + 1;
    let mut k: usize = 0;
    proof {
        assert(markets@.take(0) =~= Seq::<MarketConfig>::empty());
    }
    while k < markets.len()
        invariant
            tx.wf(),
            old(tx).wf(),
            k <= markets@.len(),
            first == old(tx).markets.len() + 1,
            tx.accounts@ == old(tx).accounts@,
            tx.balances@ == old(tx).balances@,
            tx.events@ == old(tx).events@,
            old(tx).markets.len() <= tx.markets.len(),
            tx.markets@.subrange(0, old(tx).markets.len() as int) == old(tx).markets@,
            forall|q: int| 0 <= q < k ==> #[trigger] has_market_slug(tx, markets@[q].slug@),
            ({
                let fresh = fresh_configs(old(tx), markets@.take(k as int));
                &&& tx.markets.len() == old(tx).markets.len() + fresh.len()
                &&& forall|q: int| 0 <= q < fresh.len() ==> row_of(#[trigger] tx.markets@[old(tx).markets.len() + q], fresh[q])
                &&& forall|q: int| 0 <= q < fresh.len() ==> outcomes_of(tx, first + q, #[trigger] fresh[q])
                &&& tx.outcomes.len() == old(tx).outcomes.len() + outcome_total(fresh)
            }),
        decreases markets@.len() - k,
    {
        let config = &markets[k];
        let ghost fresh = fresh_configs(old(tx), markets@.take(k as int));
        proof {
            assert(markets@.take(k + 1).drop_last() =~= markets@.take(k as int));
            assert(markets@.take(k + 1).last() == markets@[k as int]);
            assert(slug_repeated(markets@.take(k + 1), k as int) == slug_repeated(markets@, k as int)) by {
                if slug_repeated(markets@, k as int) {
                    let q = choose|q: int| 0 <= q < k && markets@[q].slug@ == markets@[k as int].slug@;
                    assert(markets@.take(k + 1)[q] == markets@[q]);
                }
                let t = markets@.take(k + 1);
                if slug_repeated(t, k as int) {
                    let q = choose|q: int| 0 <= q < k && (#[trigger] t[q]).slug@ == t[k as int].slug@;
                    assert(t[q] == markets@[q]);
                }
            }
            lemma_fresh_from_configs(old(tx), markets@.take(k as int));
        }
        let exists = match get_market_by_slug(tx, config.slug.as_str()) {
            Ok(found) => found.is_some(),
            Err(e) => return Err(e),
        };
        proof {
            // The slug is taken exactly when it was in the ledger or an earlier entry had it.
            if has_market_slug(tx, config.slug@) {
                let i = choose|i: int| 0 <= i < tx.markets.len() && (#[trigger] tx.markets@[i]).slug@ == config.slug@;
                if i < old(tx).markets.len() {
                    assert(tx.markets@[i] == tx.markets@.subrange(0, old(tx).markets.len() as int)[i]);
                    assert(has_market_slug(old(tx), config.slug@));
                } else {
                    let j = i - old(tx).markets.len();
                    assert(row_of(tx.markets@[old(tx).markets.len() + j], fresh[j]));
                    let q = choose|q: int| 0 <= q < markets@.take(k as int).len()
                        && markets@.take(k as int)[q].slug@ == (#[trigger] fresh[j]).slug@;
                    assert(markets@.take(k as int)[q] == markets@[q]);
                    assert(slug_repeated(markets@, k as int));
                }
            } else {
                assert(!has_market_slug(old(tx), config.slug@)) by {
                    if has_market_slug(old(tx), config.slug@) {
                        let i = choose|i: int| 0 <= i < old(tx).markets.len() && (#[trigger] old(tx).markets@[i]).slug@ == config.slug@;
                        assert(tx.markets@[i] == tx.markets@.subrange(0, old(tx).markets.len() as int)[i]);
                    }
                }
                assert(!slug_repeated(markets@, k as int)) by {
                    if slug_repeated(markets@, k as int) {
                        let q = choose|q: int| 0 <= q < k && markets@[q].slug@ == markets@[k as int].slug@;
                        assert(has_market_slug(tx, markets@[q].slug@));
                    }
                }
            }
            assert(exists == has_market_slug(tx, config.slug@)) by {
                if !exists && has_market_slug(tx, config.slug@) {
                    let i = choose|i: int| 0 <= i < tx.markets.len() && (#[trigger] tx.markets@[i]).slug@ == config.slug@;
                    assert(tx.markets@[i].slug@ == config.slug@);
                }
            }
        }
        if !exists {
            proof {
                assert(fresh_configs(old(tx), markets@.take(k + 1)) == fresh.push(markets@[k as int]));
                let all = fresh_configs(old(tx), markets@);
                let fresh2 = fresh.push(markets@[k as int]);
                lemma_fresh_prefix(old(tx), markets@, k + 1);
                lemma_totals_take(all, fresh2.len() as int);
                lemma_totals_push(fresh, markets@[k as int]);
                assert(all.take(fresh2.len() as int) == fresh2);
            }
            let ghost before = *tx;
            match create_market(tx, config) {
                Ok(_) => {},
                Err(e) => {
                    assert(tx.markets@.subrange(0, old(tx).markets.len() as int) =~= before.markets@.subrange(
                        0,
                        old(tx).markets.len() as int,
                    ));
                    return Err(e);
                },
            }
            proof {
                let id = before.markets.len() + 1;
                let n0 = before.outcomes.len() as int;
                assert(tx.markets@.subrange(0, old(tx).markets.len() as int) =~= before.markets@.subrange(
                    0,
                    old(tx).markets.len() as int,
                ));
                assert forall|q: int| 0 <= q < k + 1 implies #[trigger] has_market_slug(tx, markets@[q].slug@) by {
                    if q < k {
                        assert(has_market_slug(&before, markets@[q].slug@));
                        let i = choose|i: int| 0 <= i < before.markets.len() && (#[trigger] before.markets@[i]).slug@ == markets@[q].slug@;
                        assert(tx.markets@[i] == before.markets@[i]);
                    } else {
                        assert(tx.markets@[tx.markets.len() - 1].slug@ == markets@[q].slug@);
                    }
                }
                // The outcomes of the markets created before are as they were;
                // the new market's are the rows just added.
                assert forall|j: int| 0 <= j < n0 implies (#[trigger] tx.outcomes@[j]).market_id != id by {
                    assert(tx.outcomes@[j] == tx.outcomes@.subrange(0, n0)[j]);
                    assert(before.outcomes@[j].market_id <= before.markets.len());
                }
                assert forall|j: int| n0 <= j < tx.outcomes.len() implies (#[trigger] tx.outcomes@[j]).market_id == id by {
                    let kk = j - n0;
                    assert(tx.outcomes@[before.outcomes.len() + kk].market_id == id);
                }
                lemma_outcome_ids_append_own(tx.outcomes@, n0, id);
                let fresh2 = fresh.push(markets@[k as int]);
                assert forall|q: int| 0 <= q < fresh.len() implies #[trigger] tx.outcome_ids(first + q) == before.outcome_ids(first + q) by {
                    assert forall|j: int| n0 <= j < tx.outcomes.len() implies (#[trigger] tx.outcomes@[j]).market_id != first + q by {
                        assert(tx.outcomes@[j].market_id == id);
                    }
                    lemma_outcome_ids_append_other(tx.outcomes@, n0, first + q);
                    assert(tx.outcomes@.subrange(0, n0) == before.outcomes@);
                }
                assert forall|q: int| 0 <= q < fresh2.len() implies row_of(#[trigger] tx.markets@[old(tx).markets.len() + q], fresh2[q]) by {
                    if q < fresh.len() {
                        assert(tx.markets@[old(tx).markets.len() + q] == before.markets@[old(tx).markets.len() + q]);
                    }
                }
                assert forall|q: int| 0 <= q < fresh2.len() implies outcomes_of(tx, first + q, #[trigger] fresh2[q]) by {
                    if q < fresh.len() {
                        assert(outcomes_of(&before, first + q, fresh[q]));
                        assert(tx.outcome_ids(first + q) == before.outcome_ids(first + q));
                        assert forall|kk: int| 0 <= kk < fresh[q].outcomes.len() implies tx.outcomes@[(#[trigger] tx.outcome_ids(first + q)[kk]) - 1].value@
                            == fresh[q].outcomes@[kk]@ by {
                            let x = before.outcome_ids(first + q)[kk];
                            lemma_outcome_ids(before.outcomes@, first + q);
                            assert(tx.outcomes@[x - 1] == tx.outcomes@.subrange(0, n0)[x - 1]);
                        }
                    } else {
                        assert(first + q == id);
                        assert forall|kk: int| 0 <= kk < markets@[k as int].outcomes.len() implies tx.outcomes@[(#[trigger] tx.outcome_ids(id)[kk]) - 1].value@
                            == markets@[k as int].outcomes@[kk]@ by {
                            assert(tx.outcome_ids(id)[kk] == n0 + 1 + kk);
                            assert(tx.outcomes@[before.outcomes.len() + kk].value@ == markets@[k as int].outcomes@[kk]@);
                        }
                    }
                }
            }
        } else {
            proof {
                assert(fresh_configs(old(tx), markets@.take(k + 1)) == fresh);
            }
        }
        k = k + 1;
    }
    proof {
        assert(markets@.take(k as int) =~= markets@);
    }
    Ok(())
}

} // verus!
