//! The order of the tables that the pages show: largest first, and rows with
//! equal keys in the order in which they came.
//!
//! The leaderboard ranks participants by net worth, a market's page ranks its
//! participants by unrealized profit and then by the value of their shares,
//! the assets page ranks markets and positions by value, and the activity
//! page lists trades by day, then by market, then newest first.

use vstd::prelude::*;

use core::cmp::Ordering;

use crate::model::Amount;

verus! {

/// Whether key `a` comes before key `b` in descending order: by the first
/// component, then by the second, then by the third.
pub open spec fn key_above(a: (i64, i64, i64), b: (i64, i64, i64)) -> bool {
    a.0 > b.0 || (a.0 == b.0 && (a.1 > b.1 || (a.1 == b.1 && a.2 > b.2)))
}

/// `order` lists each of the rows `0..n` of `keys` exactly once, by
/// descending key, and rows with equal keys in the order in which they came.
pub open spec fn orders_first_rows(keys: Seq<(i64, i64, i64)>, order: Seq<usize>, n: int) -> bool {
    &&& order.len() == n
    &&& forall|i: int| 0 <= i < order.len() ==> #[trigger] order[i] < n
    &&& forall|i: int, j: int| 0 <= i < j < order.len() ==> #[trigger] order[i] != #[trigger] order[j]
    &&& forall|i: int, j: int|
        0 <= i < j < order.len() ==> !key_above(keys[#[trigger] order[j] as int], keys[#[trigger] order[i] as int])
    &&& forall|i: int, j: int|
        0 <= i < j < order.len() && keys[#[trigger] order[i] as int] == keys[#[trigger] order[j] as int] ==> order[i]
            < order[j]
}

/// `order` lists every row of `keys` exactly once, by descending key, and
/// rows with equal keys in the order in which they came.
pub open spec fn is_descending_order(keys: Seq<(i64, i64, i64)>, order: Seq<usize>) -> bool {
    orders_first_rows(keys, order, keys.len() as int)
}

fn above(a: (i64, i64, i64), b: (i64, i64, i64)) -> (r: bool)
    ensures
        r == key_above(a, b),
{
    a.0 > b.0 || (a.0 == b.0 && (a.1 > b.1 || (a.1 == b.1 && a.2 > b.2)))
}

/// The positions of the rows of `keys`, by descending key; rows with equal
/// keys keep the order in which they came.
pub fn descending_order(keys: &Vec<(i64, i64, i64)>) -> (r: Vec<usize>)
    ensures
        is_descending_order(keys@, r@),
{
    let mut order: Vec<usize> = Vec::new();
    let mut n: usize = 0;
    while n < keys.len()
        invariant
            n <= keys.len(),
            orders_first_rows(keys@, order@, n as int),
        decreases keys.len() - n,
    {
        let k = keys[n];
        let mut p: usize = 0;
        while p < order.len() && !above(k, keys[order[p]])
            invariant
                p <= order.len(),
                orders_first_rows(keys@, order@, n as int),
                n < keys.len(),
                k == keys@[n as int],
                forall|q: int| 0 <= q < p ==> !key_above(k, keys@[#[trigger] order@[q] as int]),
            decreases order.len() - p,
        {
            p = p + 1;
        }
        let ghost old_order = order@;
        order.insert(p, n);
        proof {
            let o = order@;
            assert(o == old_order.insert(p as int, n));
            assert forall|i: int| 0 <= i < o.len() implies #[trigger] o[i] < n + 1 by {
                if i < p {
                    assert(o[i] == old_order[i]);
                } else if i > p {
                    assert(o[i] == old_order[i - 1]);
                }
            }
            assert forall|i: int, j: int| 0 <= i < j < o.len() implies #[trigger] o[i] != #[trigger] o[j] by {
                if i < p && j < p {
                    assert(o[i] == old_order[i] && o[j] == old_order[j]);
                } else if i < p && j == p {
                    assert(old_order[i] < n);
                } else if i < p {
                    assert(o[i] == old_order[i] && o[j] == old_order[j - 1]);
                } else if i == p {
                    assert(old_order[j - 1] < n);
                } else {
                    assert(o[i] == old_order[i - 1] && o[j] == old_order[j - 1]);
                }
            }
            assert forall|i: int, j: int| 0 <= i < j < o.len() implies !key_above(
                keys@[#[trigger] o[j] as int],
                keys@[#[trigger] o[i] as int],
            ) && (keys@[o[i] as int] == keys@[o[j] as int] ==> o[i] < o[j]) by {
                if i < p && j < p {
                    assert(o[i] == old_order[i] && o[j] == old_order[j]);
                } else if i < p && j == p {
                    assert(o[i] == old_order[i]);
                    assert(!key_above(k, keys@[old_order[i] as int]));
                    assert(old_order[i] < n);
                } else if i < p {
                    assert(o[i] == old_order[i] && o[j] == old_order[j - 1]);
                } else if i == p {
                    assert(o[j] == old_order[j - 1]);
                    assert(key_above(k, keys@[old_order[p as int] as int]));
                    if j - 1 > p {
                        assert(!key_above(keys@[old_order[j - 1] as int], keys@[old_order[p as int] as int]));
                    }
                } else {
                    assert(o[i] == old_order[i - 1] && o[j] == old_order[j - 1]);
                }
            }
        }
        n = n + 1;
    }
    order
}


impl Amount {
    /// How two amounts of one asset compare, by their number of micros.
    /// Amounts of different assets are not compared.
    pub fn compare(&self, other: &Amount) -> (r: Ordering)
        requires
            self.1 == other.1,
        ensures
            r == (if self.0 < other.0 {
                Ordering::Less
            } else if self.0 == other.0 {
                Ordering::Equal
            } else {
                Ordering::Greater
            }),
    {
        if self.0 < other.0 {
            Ordering::Less
        } else if self.0 == other.0 {
            Ordering::Equal
        } else {
            Ordering::Greater
        }
    }
}

} // verus!
