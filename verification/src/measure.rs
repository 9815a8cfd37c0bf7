//! Termination of the trading loop. Each settled trade strictly decreases
//! the potential `phi`: agents never gain money at prices above the current
//! top bid, and every trade either retires the top bidder (its B holding is
//! emptied) or permanently clears one seller's A holding while the top
//! bidder survives.

use vstd::prelude::*;
use crate::rat::rat_le;
use crate::rat::rat_lt;
use crate::rat::rat_wf;
use crate::rat::lemma_le_trans;
use crate::market::Agent;
use crate::market::Balance;
use crate::market::Trade;
use crate::market::wf_state;
use crate::market::wf_pair;
use crate::market::price_at;
use crate::market::has_bid;
use crate::market::has_ask;
use crate::market::valid_next_trade;
use crate::market::applied;

verus! {

/// How many of the first `k` indices satisfy `p`.
pub open spec fn count_upto(p: spec_fn(int) -> bool, k: int) -> nat
    decreases k,
{
    if k <= 0 {
        0
    } else {
        count_upto(p, k - 1) + (if p(k - 1) {
            1nat
        } else {
            0nat
        })
    }
}

proof fn lemma_count_le(p: spec_fn(int) -> bool, k: int)
    requires
        k >= 0,
    ensures
        count_upto(p, k) <= k,
    decreases k,
{
    if k > 0 {
        lemma_count_le(p, k - 1);
    }
}

proof fn lemma_count_mono(p: spec_fn(int) -> bool, q: spec_fn(int) -> bool, k: int)
    requires
        forall|i: int| 0 <= i < k && #[trigger] p(i) ==> q(i),
    ensures
        count_upto(p, k) <= count_upto(q, k),
    decreases k,
{
    if k > 0 {
        lemma_count_mono(p, q, k - 1);
    }
}

proof fn lemma_count_strict(p: spec_fn(int) -> bool, q: spec_fn(int) -> bool, k: int, w: int)
    requires
        forall|i: int| 0 <= i < k && #[trigger] p(i) ==> q(i),
        0 <= w < k,
        q(w),
        !p(w),
    ensures
        count_upto(p, k) < count_upto(q, k),
    decreases k,
{
    if w == k - 1 {
        lemma_count_mono(p, q, k - 1);
    } else {
        lemma_count_strict(p, q, k - 1, w);
    }
}

/// Some bidder's price is at least this agent's price.
pub open spec fn dominated(s: Seq<(Agent, Balance)>, i: int) -> bool {
    exists|j: int|
        0 <= j < s.len() && #[trigger] has_bid(s, j) && rat_le(price_at(s, i), price_at(s, j))
}

/// Holds A and is priced strictly under some bidder.
pub open spec fn below_top(s: Seq<(Agent, Balance)>, i: int) -> bool {
    has_ask(s, i) && exists|j: int|
        0 <= j < s.len() && #[trigger] has_bid(s, j) && rat_lt(price_at(s, i), price_at(s, j))
}

/// Bids at the highest price among all bidders.
pub open spec fn at_top(s: Seq<(Agent, Balance)>, i: int) -> bool {
    has_bid(s, i) && forall|j: int|
        0 <= j < s.len() && #[trigger] has_bid(s, j) ==> rat_le(price_at(s, j), price_at(s, i))
}

/// The potential that every settled trade strictly decreases.
pub open spec fn phi(s: Seq<(Agent, Balance)>) -> nat {
    (2 * s.len() + 1) * count_upto(|i: int| dominated(s, i), s.len() as int) + count_upto(
        |i: int| below_top(s, i),
        s.len() as int,
    ) + count_upto(|i: int| at_top(s, i), s.len() as int)
}

/// Settling the selected trade strictly decreases the potential.
pub proof fn lemma_phi_decreases(s0: Seq<(Agent, Balance)>, s1: Seq<(Agent, Balance)>, t: Trade)
    requires
        wf_state(s0),
        valid_next_trade(s0, t),
        applied(s0, s1, t),
    ensures
        phi(s1) < phi(s0),
{
    let n = s0.len() as int;
    let b = t.buyer as int;
    let a = t.seller as int;
    assert forall|i: int| 0 <= i < n implies price_at(s1, i) == price_at(s0, i) by {
        if i != b && i != a {
            assert(s1[i] == s0[i]);
        }
    }
    assert forall|i: int| 0 <= i < n implies rat_wf(#[trigger] price_at(s0, i)) by {
        assert(wf_pair(s0[i]));
    }
    assert(has_bid(s0, b));
    assert(has_ask(s0, a));
    assert(rat_lt(price_at(s0, a), price_at(s0, b)));
    let top_survives = exists|j: int|
        0 <= j < n && #[trigger] has_bid(s1, j) && rat_le(price_at(s0, b), price_at(s0, j));
    if top_survives {
        let w = choose|j: int|
            0 <= j < n && #[trigger] has_bid(s1, j) && rat_le(price_at(s0, b), price_at(s0, j));
        // the set of dominated agents is unchanged
        assert forall|i: int| 0 <= i < n && #[trigger] dominated(s1, i) implies dominated(
            s0,
            i,
        ) by {
            let j = choose|j: int|
                0 <= j < n && #[trigger] has_bid(s1, j) && rat_le(price_at(s1, i), price_at(s1, j));
            if j == a {
                lemma_le_trans(price_at(s0, i), price_at(s0, a), price_at(s0, b));
                assert(has_bid(s0, b) && rat_le(price_at(s0, i), price_at(s0, b)));
            } else {
                assert(has_bid(s0, j) && rat_le(price_at(s0, i), price_at(s0, j)));
            }
        }
        assert forall|i: int| 0 <= i < n && #[trigger] dominated(s0, i) implies dominated(
            s1,
            i,
        ) by {
            let j = choose|j: int|
                0 <= j < n && #[trigger] has_bid(s0, j) && rat_le(price_at(s0, i), price_at(s0, j));
            lemma_le_trans(price_at(s0, i), price_at(s0, j), price_at(s0, b));
            lemma_le_trans(price_at(s0, i), price_at(s0, b), price_at(s0, w));
            assert(has_bid(s1, w) && rat_le(price_at(s1, i), price_at(s1, w)));
        }
        lemma_count_mono(|i: int| dominated(s1, i), |i: int| dominated(s0, i), n);
        lemma_count_mono(|i: int| dominated(s0, i), |i: int| dominated(s1, i), n);
        // agents below the top that hold A only lose that standing
        assert forall|i: int| 0 <= i < n && #[trigger] below_top(s1, i) implies below_top(
            s0,
            i,
        ) by {
            let j = choose|j: int|
                0 <= j < n && #[trigger] has_bid(s1, j) && rat_lt(price_at(s1, i), price_at(s1, j));
            if i == b {
                if j == a {
                    assert(false);
                } else if j == b {
                    assert(false);
                } else {
                    assert(s1[j] == s0[j]);
                    assert(has_bid(s0, j));
                    assert(rat_le(price_at(s0, j), price_at(s0, b)));
                    assert(false);
                }
            } else {
                assert(has_ask(s0, i));
                if j == a {
                    lemma_le_trans(price_at(s0, i), price_at(s0, a), price_at(s0, b));
                    assert(has_bid(s0, b) && rat_lt(price_at(s0, i), price_at(s0, b)));
                } else {
                    assert(has_bid(s0, j) && rat_lt(price_at(s0, i), price_at(s0, j)));
                }
            }
        }
        // agents at the top stay characterised by the old top
        assert forall|i: int| 0 <= i < n && #[trigger] at_top(s1, i) implies at_top(s0, i) by {
            assert(has_bid(s1, w) ==> rat_le(price_at(s1, w), price_at(s1, i)));
            if i == a {
                lemma_le_trans(price_at(s0, b), price_at(s0, w), price_at(s0, a));
                assert(false);
            } else {
                assert(has_bid(s0, i));
                assert forall|j: int| 0 <= j < n && #[trigger] has_bid(s0, j) implies rat_le(
                    price_at(s0, j),
                    price_at(s0, i),
                ) by {
                    lemma_le_trans(price_at(s0, j), price_at(s0, b), price_at(s0, w));
                    lemma_le_trans(price_at(s0, j), price_at(s0, w), price_at(s0, i));
                }
            }
        }
        if !crate::rat::rat_pos(s1[b].1.b@) {
            // the top bidder retired: one fewer agent at the top
            assert(at_top(s0, b));
            assert(!at_top(s1, b));
            lemma_count_strict(|i: int| at_top(s1, i), |i: int| at_top(s0, i), n, b);
            lemma_count_mono(|i: int| below_top(s1, i), |i: int| below_top(s0, i), n);
        } else {
            // the seller's A holding was emptied: one fewer agent below the top
            assert(below_top(s0, a));
            assert(!has_ask(s1, a));
            assert(!below_top(s1, a));
            lemma_count_strict(|i: int| below_top(s1, i), |i: int| below_top(s0, i), n, a);
            lemma_count_mono(|i: int| at_top(s1, i), |i: int| at_top(s0, i), n);
        }
    } else {
        // no bidder reaches the old top price any more: the buyer itself is
        // no longer dominated
        assert forall|i: int| 0 <= i < n && #[trigger] dominated(s1, i) implies dominated(
            s0,
            i,
        ) by {
            let j = choose|j: int|
                0 <= j < n && #[trigger] has_bid(s1, j) && rat_le(price_at(s1, i), price_at(s1, j));
            if j == a {
                lemma_le_trans(price_at(s0, i), price_at(s0, a), price_at(s0, b));
                assert(has_bid(s0, b) && rat_le(price_at(s0, i), price_at(s0, b)));
            } else {
                assert(has_bid(s0, j) && rat_le(price_at(s0, i), price_at(s0, j)));
            }
        }
        assert(dominated(s0, b));
        assert(!dominated(s1, b));
        lemma_count_strict(|i: int| dominated(s1, i), |i: int| dominated(s0, i), n, b);
        lemma_count_le(|i: int| below_top(s1, i), n);
        lemma_count_le(|i: int| at_top(s1, i), n);
        let r1 = count_upto(|i: int| dominated(s1, i), n);
        let r0 = count_upto(|i: int| dominated(s0, i), n);
        assert((2 * n + 1) * r1 + 2 * n < (2 * n + 1) * r0) by (nonlinear_arith)
            requires
                r1 < r0,
                n >= 1,
                r1 >= 0,
        ;
    }
}

} // verus!
