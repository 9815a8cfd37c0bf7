//! The equilibrium driver: runs the matcher and settlement to the fixed
//! point, then checks that the terminal allocation is a cleared double
//! auction (sorted by indifference price, the population splits into a
//! prefix out of good A, a middle still holding both, and a suffix out of
//! good B).

use vstd::prelude::*;
use crate::rat::rat_le;
use crate::rat::rat_eq;
use crate::rat::rat_wf;
use crate::rat::Rat;
use crate::rat::rat_of;
use crate::rat::rat_add;
use crate::rat::rat_sub;
use crate::rat::lemma_eq_trans;
use crate::rat::lemma_add_congr;
use crate::rat::lemma_sub_congr;
use crate::rat::lemma_add_comm;
use crate::rat::lemma_add_assoc;
use crate::rat::lemma_add_sub_assoc;
use crate::rat::lemma_add_swap;
use crate::rat::lemma_add_cancel;
use crate::rat::lemma_add_then_sub_cancel;
use crate::rat::lemma_ops_wf;
use crate::rat::rat_lt;
use crate::rat::lemma_le_trans;
use crate::market::Agent;
use crate::market::Balance;
use crate::market::MarketError;
use crate::market::wf_pair;
use crate::market::wf_state;
use crate::market::price_at;
use crate::market::has_bid;
use crate::market::has_ask;
use crate::market::is_terminal;
use crate::market::execute_one_trade;
use crate::market::orders_overflow;
use crate::market::step_overflow;
use crate::market::valid_next_trade;
use crate::market::applied;
use crate::market::Trade;
use crate::measure::phi;
use crate::measure::lemma_phi_decreases;
use crate::laws::distinct_prices;
use crate::laws::lemma_perm_preserves;
use crate::laws::lemma_terminal_partition;

verus! {

/// Non-decreasing indifference prices.
pub open spec fn sorted_by_price(s: Seq<(Agent, Balance)>) -> bool {
    forall|i: int, j: int| 0 <= i < j < s.len() ==> rat_le(price_at(s, i), price_at(s, j))
}

/// The sequence splits at `i` and `j` into: a prefix holding no A, a middle
/// holding both goods, and a suffix holding no B.
pub open spec fn partition_at(s: Seq<(Agent, Balance)>, i: int, j: int) -> bool {
    &&& 0 <= i <= j <= s.len()
    &&& forall|k: int| 0 <= k < i ==> !has_ask(s, k)
    &&& forall|k: int| i <= k < j ==> has_ask(s, k) && has_bid(s, k)
    &&& forall|k: int| j <= k < s.len() ==> !has_bid(s, k)
}

/// Some such split exists: the structural shape of a cleared double auction.
pub open spec fn partitioned(s: Seq<(Agent, Balance)>) -> bool {
    exists|i: int, j: int| #[trigger] partition_at(s, i, j)
}

/// Stable insertion sort of a copy of the population by indifference price.
fn sorted_copy(v: &Vec<(Agent, Balance)>) -> (r: Vec<(Agent, Balance)>)
    requires
        wf_state(v@),
    ensures
        r@.to_multiset() == v@.to_multiset(),
        r@.len() == v@.len(),
        sorted_by_price(r@),
        wf_state(r@),
{
    broadcast use vstd::seq_lib::group_to_multiset_ensures;
    broadcast use vstd::seq_lib::to_multiset_insert;

    let mut r: Vec<(Agent, Balance)> = Vec::new();
    let mut idx: usize = 0;
    proof {
        assert(r@ =~= v@.subrange(0, 0));
    }
    while idx < v.len()
        invariant
            wf_state(v@),
            idx <= v@.len(),
            r@.len() == idx as int,
            r@.to_multiset() == v@.subrange(0, idx as int).to_multiset(),
            sorted_by_price(r@),
            wf_state(r@),
        decreases v@.len() - idx,
    {
        let x = v[idx];
        let mut pos: usize = 0;
        while pos < r.len() && r[pos].0.indifference_price.le(x.0.indifference_price)
            invariant
                wf_state(r@),
                wf_pair(x),
                pos <= r@.len(),
                forall|t: int|
                    0 <= t < pos ==> rat_le(price_at(r@, t), x.0.indifference_price@),
            decreases r@.len() - pos,
        {
            pos += 1;
        }
        proof {
            if pos < r@.len() {
                assert(rat_lt(x.0.indifference_price@, price_at(r@, pos as int)));
            }
        }
        let ghost old_r = r@;
        r.insert(pos, x);
        proof {
            let s1 = r@;
            old_r.insert_ensures(pos as int, x);
            vstd::seq_lib::to_multiset_insert(old_r, pos as int, x);
            assert(s1 == old_r.insert(pos as int, x));
            assert(s1.len() == old_r.len() + 1);
            assert forall|k: int| 0 <= k < s1.len() implies (if k < pos {
                s1[k] == old_r[k]
            } else if k == pos {
                s1[k] == x
            } else {
                s1[k] == old_r[k - 1]
            }) by {}
            assert forall|a: int, b: int| 0 <= a < b < s1.len() implies rat_le(
                price_at(s1, a),
                price_at(s1, b),
            ) by {
                if a > pos {
                    assert(old_r.insert(pos as int, x)[(a - 1) + 1] == old_r[a - 1]);
                }
                if b > pos {
                    assert(old_r.insert(pos as int, x)[(b - 1) + 1] == old_r[b - 1]);
                }
                if b < pos {
                    assert(rat_le(price_at(old_r, a), price_at(old_r, b)));
                } else if a < pos && b == pos {
                    assert(s1[a] == old_r[a] && s1[b] == x);
                    assert(rat_le(price_at(old_r, a), x.0.indifference_price@));
                } else if a < pos && b > pos {
                    assert(s1[a] == old_r[a] && s1[b] == old_r[b - 1]);
                    assert(rat_le(price_at(old_r, a), price_at(old_r, b - 1)));
                } else if a == pos && b > pos {
                    assert(s1[a] == x && s1[b] == old_r[b - 1]);
                    assert(rat_lt(x.0.indifference_price@, price_at(old_r, pos as int)));
                    assert(rat_le(price_at(old_r, pos as int), price_at(old_r, b - 1)));
                    lemma_le_trans(
                        x.0.indifference_price@,
                        price_at(old_r, pos as int),
                        price_at(old_r, b - 1),
                    );
                } else {
                    assert(s1[a] == old_r[a - 1] && s1[b] == old_r[b - 1]);
                    assert(rat_le(price_at(old_r, a - 1), price_at(old_r, b - 1)));
                }
            }
            assert(old_r.insert(pos as int, x).to_multiset() == old_r.to_multiset().insert(x));
            v@.subrange(0, idx as int).to_multiset_ensures();
            assert(v@.subrange(0, idx as int).push(x).to_multiset() == v@.subrange(
                0,
                idx as int,
            ).to_multiset().insert(x));
            assert(v@.subrange(0, idx + 1) =~= v@.subrange(0, idx as int).push(x));
            assert(s1.to_multiset() == v@.subrange(0, idx + 1).to_multiset());
            assert forall|k: int| 0 <= k < s1.len() implies wf_pair(#[trigger] s1[k]) by {
                if k < pos {
                    assert(s1[k] == old_r[k]);
                } else if k > pos {
                    assert(s1[k] == old_r[k - 1]);
                }
            }
        }
        idx += 1;
    }
    proof {
        assert(v@.subrange(0, v@.len() as int) =~= v@);
    }
    r
}

/// Sorts the population by indifference price and strips, in order, the
/// agents out of A, then those holding both goods, then those out of B; what
/// is left over violates the expected terminal partition and is returned.
pub fn sanity_check_endpoint(assets: &Vec<(Agent, Balance)>) -> (r: Vec<(Agent, Balance)>)
    requires
        wf_state(assets@),
    ensures
        exists|s: Seq<(Agent, Balance)>, k: int|
            #![trigger s.to_multiset(), s.subrange(k, s.len() as int)]
            s.to_multiset() == assets@.to_multiset() && sorted_by_price(s) && 0 <= k
                <= s.len() && r@ == s.subrange(k, s.len() as int) && (r@.len() == 0 <==> partitioned(
                s,
            )),
{
    let local = sorted_copy(assets);
    let ghost s = local@;
    let n = local.len();
    let mut i: usize = 0;
    while i < n && !local[i].1.a.is_pos()
        invariant
            n == s.len(),
            s == local@,
            i <= n,
            forall|k: int| 0 <= k < i ==> !has_ask(s, k),
        decreases n - i,
    {
        i += 1;
    }
    let ghost p_end = i as int;
    while i < n && local[i].1.a.is_pos() && local[i].1.b.is_pos()
        invariant
            n == s.len(),
            s == local@,
            p_end <= i as int <= n as int,
            forall|k: int| p_end <= k < i as int ==> has_ask(s, k) && has_bid(s, k),
        decreases n - i,
    {
        i += 1;
    }
    let ghost m_end = i as int;
    while i < n && !local[i].1.b.is_pos()
        invariant
            n == s.len(),
            s == local@,
            m_end <= i as int <= n as int,
            forall|k: int| m_end <= k < i as int ==> !has_bid(s, k),
        decreases n - i,
    {
        i += 1;
    }
    let ghost b_end = i as int;
    let mut rem: Vec<(Agent, Balance)> = Vec::new();
    while i < n
        invariant
            n == s.len(),
            s == local@,
            0 <= b_end <= i as int <= n as int,
            rem@ =~= s.subrange(b_end, i as int),
        decreases n - i,
    {
        let e = local[i];
        rem.push(e);
        proof {
            assert(s.subrange(b_end, i + 1) =~= s.subrange(b_end, i as int).push(s[i as int]));
            assert(rem@ =~= s.subrange(b_end, i + 1));
        }
        i += 1;
    }
    proof {
        assert(rem@ == s.subrange(b_end, s.len() as int));
        if b_end == n as int {
            assert(partition_at(s, p_end, m_end));
            assert(partitioned(s));
        } else {
            assert(has_bid(s, b_end));
            if partitioned(s) {
                let (pi, pj): (int, int) = choose|pi: int, pj: int| #[trigger] partition_at(s, pi, pj);
                lemma_greedy_reaches_end(s, pi, pj, p_end, m_end, b_end);
            }
            assert(rem@.len() > 0);
        }
    }
    rem
}

/// If a three-segment split exists, the greedy scan cannot stop early.
proof fn lemma_greedy_reaches_end(
    s: Seq<(Agent, Balance)>,
    pi: int,
    pj: int,
    p_end: int,
    m_end: int,
    b_end: int,
)
    requires
        partition_at(s, pi, pj),
        0 <= p_end <= m_end <= b_end <= s.len(),
        forall|k: int| 0 <= k < p_end ==> !has_ask(s, k),
        p_end < s.len() ==> has_ask(s, p_end),
        forall|k: int| p_end <= k < m_end ==> has_ask(s, k) && has_bid(s, k),
        m_end < s.len() ==> !(has_ask(s, m_end) && has_bid(s, m_end)),
        forall|k: int| m_end <= k < b_end ==> !has_bid(s, k),
        b_end < s.len() ==> has_bid(s, b_end),
    ensures
        b_end == s.len(),
{
    if b_end < s.len() {
        assert(p_end < s.len());
        assert(has_ask(s, p_end));
        assert(p_end >= pi);
        if p_end < pj {
            assert(m_end <= pj) by {
                if m_end > pj {
                    assert(has_bid(s, pj));
                    assert(!has_bid(s, pj));
                }
            }
            assert(m_end >= pj) by {
                if m_end < pj {
                    assert(has_ask(s, m_end) && has_bid(s, m_end));
                    assert(!(has_ask(s, m_end) && has_bid(s, m_end)));
                }
            }
            assert(!has_bid(s, b_end));
        } else {
            assert(!has_bid(s, p_end));
            assert(m_end == p_end) by {
                if m_end > p_end {
                    assert(has_bid(s, p_end));
                }
            }
            assert(!has_bid(s, b_end));
        }
    }
}

/// Total value of the first `k` entries of a sequence of quantities.
pub open spec fn rat_total(q: Seq<Rat>, k: int) -> Rat
    decreases k,
{
    if k <= 0 {
        rat_of(0, 1)
    } else {
        rat_add(rat_total(q, k - 1), q[k - 1])
    }
}

/// The A-holdings of the population, in population order.
pub open spec fn balances_a(s: Seq<(Agent, Balance)>) -> Seq<Rat> {
    Seq::new(s.len(), |i: int| s[i].1.a@)
}

/// The B-holdings of the population, in population order.
pub open spec fn balances_b(s: Seq<(Agent, Balance)>) -> Seq<Rat> {
    Seq::new(s.len(), |i: int| s[i].1.b@)
}

proof fn lemma_total_wf(q: Seq<Rat>, k: int)
    requires
        forall|i: int| 0 <= i < k ==> rat_wf(#[trigger] q[i]),
    ensures
        rat_wf(rat_total(q, k)),
    decreases k,
{
    if k > 0 {
        lemma_total_wf(q, k - 1);
        lemma_ops_wf(rat_total(q, k - 1), q[k - 1]);
    }
}

/// Totals of two sequences that differ only at `lo` and `hi`, where the two
/// changed entries keep their combined value: the prefix totals agree, carry
/// a borrowed summand inside the window, and agree again past it.
proof fn lemma_total_two_changed(q0: Seq<Rat>, q1: Seq<Rat>, lo: int, hi: int, k: int)
    requires
        q1.len() == q0.len(),
        0 <= lo < hi < q0.len(),
        forall|i: int| 0 <= i < q0.len() ==> rat_wf(#[trigger] q0[i]),
        forall|i: int| 0 <= i < q1.len() ==> rat_wf(#[trigger] q1[i]),
        forall|i: int| 0 <= i < q0.len() && i != lo && i != hi ==> q1[i] == q0[i],
        rat_eq(rat_add(q1[lo], q1[hi]), rat_add(q0[lo], q0[hi])),
        0 <= k <= q0.len(),
    ensures
        k <= lo ==> rat_total(q1, k) == rat_total(q0, k),
        lo < k <= hi ==> rat_eq(
            rat_add(rat_total(q1, k), q0[lo]),
            rat_add(rat_total(q0, k), q1[lo]),
        ),
        k > hi ==> rat_eq(rat_total(q1, k), rat_total(q0, k)),
    decreases k,
{
    if k > 0 {
        lemma_total_two_changed(q0, q1, lo, hi, k - 1);
        let t0 = rat_total(q0, k - 1);
        let t1 = rat_total(q1, k - 1);
        lemma_total_wf(q0, k - 1);
        lemma_total_wf(q1, k - 1);
        if k <= lo {
            assert(q1[k - 1] == q0[k - 1]);
        } else if k - 1 == lo {
            assert(t1 == t0);
            lemma_add_swap(t0, q1[lo], q0[lo]);
        } else if k - 1 < hi {
            let x = q0[k - 1];
            assert(q1[k - 1] == x);
            lemma_ops_wf(t1, x);
            lemma_ops_wf(t0, x);
            lemma_ops_wf(t1, q0[lo]);
            lemma_ops_wf(t0, q1[lo]);
            lemma_ops_wf(rat_add(t1, x), q0[lo]);
            lemma_ops_wf(rat_add(t0, x), q1[lo]);
            lemma_ops_wf(rat_add(t1, q0[lo]), x);
            lemma_ops_wf(rat_add(t0, q1[lo]), x);
            lemma_add_swap(t1, x, q0[lo]);
            lemma_add_congr(rat_add(t1, q0[lo]), rat_add(t0, q1[lo]), x, x);
            lemma_add_swap(t0, q1[lo], x);
            lemma_eq_trans(
                rat_add(rat_add(t1, x), q0[lo]),
                rat_add(rat_add(t1, q0[lo]), x),
                rat_add(rat_add(t0, q1[lo]), x),
            );
            lemma_eq_trans(
                rat_add(rat_add(t1, x), q0[lo]),
                rat_add(rat_add(t0, q1[lo]), x),
                rat_add(rat_add(t0, x), q1[lo]),
            );
        } else if k - 1 == hi {
            let w1 = rat_add(t1, q1[hi]);
            let v0 = rat_add(t0, q0[hi]);
            lemma_ops_wf(t1, q1[hi]);
            lemma_ops_wf(t0, q0[hi]);
            lemma_ops_wf(t1, q0[lo]);
            lemma_ops_wf(t0, q1[lo]);
            lemma_ops_wf(t0, q0[lo]);
            lemma_ops_wf(q1[lo], q1[hi]);
            lemma_ops_wf(q0[lo], q0[hi]);
            lemma_ops_wf(w1, q0[lo]);
            lemma_ops_wf(v0, q0[lo]);
            lemma_ops_wf(rat_add(t1, q0[lo]), q1[hi]);
            lemma_ops_wf(rat_add(t0, q1[lo]), q1[hi]);
            lemma_ops_wf(t0, rat_add(q1[lo], q1[hi]));
            lemma_ops_wf(t0, rat_add(q0[lo], q0[hi]));
            lemma_ops_wf(rat_add(t0, q0[lo]), q0[hi]);
            lemma_ops_wf(rat_add(t0, q0[hi]), q0[lo]);
            lemma_add_swap(t1, q1[hi], q0[lo]);
            lemma_add_congr(rat_add(t1, q0[lo]), rat_add(t0, q1[lo]), q1[hi], q1[hi]);
            lemma_add_assoc(t0, q1[lo], q1[hi]);
            lemma_add_congr(t0, t0, rat_add(q1[lo], q1[hi]), rat_add(q0[lo], q0[hi]));
            lemma_add_assoc(t0, q0[lo], q0[hi]);
            lemma_add_swap(t0, q0[lo], q0[hi]);
            lemma_eq_trans(
                rat_add(w1, q0[lo]),
                rat_add(rat_add(t1, q0[lo]), q1[hi]),
                rat_add(rat_add(t0, q1[lo]), q1[hi]),
            );
            lemma_eq_trans(
                rat_add(w1, q0[lo]),
                rat_add(rat_add(t0, q1[lo]), q1[hi]),
                rat_add(t0, rat_add(q1[lo], q1[hi])),
            );
            lemma_eq_trans(
                rat_add(w1, q0[lo]),
                rat_add(t0, rat_add(q1[lo], q1[hi])),
                rat_add(t0, rat_add(q0[lo], q0[hi])),
            );
            lemma_eq_trans(
                rat_add(w1, q0[lo]),
                rat_add(t0, rat_add(q0[lo], q0[hi])),
                rat_add(rat_add(t0, q0[lo]), q0[hi]),
            );
            lemma_eq_trans(
                rat_add(w1, q0[lo]),
                rat_add(rat_add(t0, q0[lo]), q0[hi]),
                rat_add(v0, q0[lo]),
            );
            lemma_add_cancel(w1, v0, q0[lo]);
        } else {
            assert(q1[k - 1] == q0[k - 1]);
            lemma_add_congr(t1, t0, q1[k - 1], q0[k - 1]);
        }
    }
}

/// Moving `d` from one entry to another keeps their combined value.
proof fn lemma_pair_conserved(x0: Rat, y0: Rat, x1: Rat, y1: Rat, d: Rat)
    requires
        rat_wf(x0),
        rat_wf(y0),
        rat_wf(x1),
        rat_wf(y1),
        rat_wf(d),
        rat_eq(x1, rat_add(x0, d)),
        rat_eq(y1, rat_sub(y0, d)),
    ensures
        rat_eq(rat_add(x1, y1), rat_add(x0, y0)),
{
    lemma_ops_wf(x0, d);
    lemma_ops_wf(y0, d);
    lemma_ops_wf(x0, y0);
    lemma_ops_wf(x1, y1);
    lemma_ops_wf(rat_add(x0, d), y0);
    lemma_ops_wf(rat_add(x0, y0), d);
    lemma_ops_wf(rat_add(x0, d), rat_sub(y0, d));
    lemma_ops_wf(rat_add(rat_add(x0, d), y0), d);
    lemma_ops_wf(rat_add(rat_add(x0, y0), d), d);
    lemma_add_congr(x1, rat_add(x0, d), y1, rat_sub(y0, d));
    lemma_add_sub_assoc(rat_add(x0, d), y0, d);
    lemma_add_swap(x0, d, y0);
    lemma_sub_congr(rat_add(rat_add(x0, d), y0), rat_add(rat_add(x0, y0), d), d, d);
    lemma_add_then_sub_cancel(rat_add(x0, y0), d);
    lemma_eq_trans(
        rat_add(x1, y1),
        rat_add(rat_add(x0, d), rat_sub(y0, d)),
        rat_sub(rat_add(rat_add(x0, d), y0), d),
    );
    lemma_eq_trans(
        rat_add(x1, y1),
        rat_sub(rat_add(rat_add(x0, d), y0), d),
        rat_sub(rat_add(rat_add(x0, y0), d), d),
    );
    lemma_eq_trans(
        rat_add(x1, y1),
        rat_sub(rat_add(rat_add(x0, y0), d), d),
        rat_add(x0, y0),
    );
}

/// A settled trade moves quantities between the two parties only: the total
/// holding of each good over the whole population is unchanged.
proof fn lemma_trade_conserves(s0: Seq<(Agent, Balance)>, s1: Seq<(Agent, Balance)>, t: Trade)
    requires
        wf_state(s0),
        wf_state(s1),
        t.amount_a.wf(),
        t.amount_b.wf(),
        applied(s0, s1, t),
    ensures
        rat_eq(
            rat_total(balances_a(s1), s1.len() as int),
            rat_total(balances_a(s0), s0.len() as int),
        ),
        rat_eq(
            rat_total(balances_b(s1), s1.len() as int),
            rat_total(balances_b(s0), s0.len() as int),
        ),
{
    let n = s0.len() as int;
    let b = t.buyer as int;
    let a = t.seller as int;
    let qa0 = balances_a(s0);
    let qa1 = balances_a(s1);
    let qb0 = balances_b(s0);
    let qb1 = balances_b(s1);
    assert forall|i: int| 0 <= i < n implies rat_wf(#[trigger] qa0[i]) by {
        assert(wf_pair(s0[i]));
    }
    assert forall|i: int| 0 <= i < n implies rat_wf(#[trigger] qa1[i]) by {
        assert(wf_pair(s1[i]));
    }
    assert forall|i: int| 0 <= i < n implies rat_wf(#[trigger] qb0[i]) by {
        assert(wf_pair(s0[i]));
    }
    assert forall|i: int| 0 <= i < n implies rat_wf(#[trigger] qb1[i]) by {
        assert(wf_pair(s1[i]));
    }
    assert forall|i: int| 0 <= i < n && i != b && i != a implies qa1[i] == qa0[i] && qb1[i]
        == qb0[i] by {
        assert(s1[i] == s0[i]);
    }
    // good A flows from seller to buyer, good B from buyer to seller
    lemma_pair_conserved(qa0[b], qa0[a], qa1[b], qa1[a], t.amount_a@);
    lemma_pair_conserved(qb0[a], qb0[b], qb1[a], qb1[b], t.amount_b@);
    lemma_ops_wf(qa1[b], qa1[a]);
    lemma_ops_wf(qa1[a], qa1[b]);
    lemma_ops_wf(qa0[b], qa0[a]);
    lemma_ops_wf(qa0[a], qa0[b]);
    lemma_ops_wf(qb1[b], qb1[a]);
    lemma_ops_wf(qb1[a], qb1[b]);
    lemma_ops_wf(qb0[b], qb0[a]);
    lemma_ops_wf(qb0[a], qb0[b]);
    if b < a {
        lemma_total_two_changed(qa0, qa1, b, a, n);
        lemma_add_comm(qb1[a], qb1[b]);
        lemma_add_comm(qb0[a], qb0[b]);
        lemma_eq_trans(rat_add(qb1[b], qb1[a]), rat_add(qb1[a], qb1[b]), rat_add(qb0[a], qb0[b]));
        lemma_eq_trans(rat_add(qb1[b], qb1[a]), rat_add(qb0[a], qb0[b]), rat_add(qb0[b], qb0[a]));
        lemma_total_two_changed(qb0, qb1, b, a, n);
    } else {
        lemma_add_comm(qa1[a], qa1[b]);
        lemma_add_comm(qa0[a], qa0[b]);
        lemma_eq_trans(rat_add(qa1[a], qa1[b]), rat_add(qa1[b], qa1[a]), rat_add(qa0[b], qa0[a]));
        lemma_eq_trans(rat_add(qa1[a], qa1[b]), rat_add(qa0[b], qa0[a]), rat_add(qa0[a], qa0[b]));
        lemma_total_two_changed(qa0, qa1, a, b, n);
        lemma_total_two_changed(qb0, qb1, a, b, n);
    }
}

/// Chains per-step conservation with the running invariant.
proof fn lemma_conserve_chain(
    mid: Seq<(Agent, Balance)>,
    now: Seq<(Agent, Balance)>,
    start: Seq<(Agent, Balance)>,
)
    requires
        wf_state(mid),
        wf_state(now),
        wf_state(start),
        rat_eq(
            rat_total(balances_a(now), now.len() as int),
            rat_total(balances_a(mid), mid.len() as int),
        ),
        rat_eq(
            rat_total(balances_b(now), now.len() as int),
            rat_total(balances_b(mid), mid.len() as int),
        ),
        rat_eq(
            rat_total(balances_a(mid), mid.len() as int),
            rat_total(balances_a(start), start.len() as int),
        ),
        rat_eq(
            rat_total(balances_b(mid), mid.len() as int),
            rat_total(balances_b(start), start.len() as int),
        ),
    ensures
        rat_eq(
            rat_total(balances_a(now), now.len() as int),
            rat_total(balances_a(start), start.len() as int),
        ),
        rat_eq(
            rat_total(balances_b(now), now.len() as int),
            rat_total(balances_b(start), start.len() as int),
        ),
{
    lemma_totals_wf(mid);
    lemma_totals_wf(now);
    lemma_totals_wf(start);
    lemma_eq_trans(
        rat_total(balances_a(now), now.len() as int),
        rat_total(balances_a(mid), mid.len() as int),
        rat_total(balances_a(start), start.len() as int),
    );
    lemma_eq_trans(
        rat_total(balances_b(now), now.len() as int),
        rat_total(balances_b(mid), mid.len() as int),
        rat_total(balances_b(start), start.len() as int),
    );
}

/// The totals of a well-formed population are well-formed values.
proof fn lemma_totals_wf(s: Seq<(Agent, Balance)>)
    requires
        wf_state(s),
    ensures
        rat_wf(rat_total(balances_a(s), s.len() as int)),
        rat_wf(rat_total(balances_b(s), s.len() as int)),
{
    let n = s.len() as int;
    assert forall|i: int| 0 <= i < n implies rat_wf(#[trigger] balances_a(s)[i]) by {
        assert(wf_pair(s[i]));
    }
    assert forall|i: int| 0 <= i < n implies rat_wf(#[trigger] balances_b(s)[i]) by {
        assert(wf_pair(s[i]));
    }
    lemma_total_wf(balances_a(s), n);
    lemma_total_wf(balances_b(s), n);
}

/// Runs the matcher and settlement until no trade remains, then checks the
/// terminal allocation: sorted by indifference price it must split into a
/// prefix out of A, a middle holding both goods, and a suffix out of B.
/// Reports the agents outside that split as `TerminalInconsistency`.
///
/// The loop terminates for every finite population: its `decreases` clause
/// is the potential `measure::phi`, which `lemma_phi_decreases` shows every
/// settled trade strictly reduces. Agents are never modified, the
/// population's length and order are kept, and the totals of both goods are
/// conserved exactly.
pub fn execute_all_trades(assets: &mut Vec<(Agent, Balance)>) -> (r: Result<(), MarketError>)
    requires
        wf_state(old(assets)@),
    ensures
        wf_state(final(assets)@),
        final(assets)@.len() == old(assets)@.len(),
        forall|i: int|
            0 <= i < final(assets)@.len() ==> (#[trigger] final(assets)@[i]).0 == old(
                assets,
            )@[i].0,
        r is Ok ==> is_terminal(final(assets)@),
        r is Ok ==> !orders_overflow(final(assets)@),
        r is Ok ==> (exists|s: Seq<(Agent, Balance)>|
            (#[trigger] s.to_multiset()) == final(assets)@.to_multiset() && sorted_by_price(s)
                && partitioned(s)),
        r matches Err(e) ==> (e is Overflow ==> step_overflow(final(assets)@)),
        r matches Err(e) ==> (e matches MarketError::TerminalInconsistency(v) ==> (is_terminal(
            final(assets)@,
        ) && v@.len() > 0 && (exists|s: Seq<(Agent, Balance)>, k: int|
            #![trigger s.to_multiset(), s.subrange(k, s.len() as int)]
            s.to_multiset() == final(assets)@.to_multiset() && sorted_by_price(s) && 0 <= k
                <= s.len() && v@ == s.subrange(k, s.len() as int) && !partitioned(s)))),
        r matches Err(e) ==> (e is Overflow || !distinct_prices(old(assets)@)),
        rat_eq(
            rat_total(balances_a(final(assets)@), final(assets)@.len() as int),
            rat_total(balances_a(old(assets)@), old(assets)@.len() as int),
        ),
        rat_eq(
            rat_total(balances_b(final(assets)@), final(assets)@.len() as int),
            rat_total(balances_b(old(assets)@), old(assets)@.len() as int),
        ),
{
    loop
        invariant
            wf_state(assets@),
            wf_state(old(assets)@),
            assets@.len() == old(assets)@.len(),
            forall|i: int|
                0 <= i < assets@.len() ==> (#[trigger] assets@[i]).0 == old(assets)@[i].0,
            rat_eq(
                rat_total(balances_a(assets@), assets@.len() as int),
                rat_total(balances_a(old(assets)@), old(assets)@.len() as int),
            ),
            rat_eq(
                rat_total(balances_b(assets@), assets@.len() as int),
                rat_total(balances_b(old(assets)@), old(assets)@.len() as int),
            ),
        ensures
            wf_state(assets@),
            is_terminal(assets@),
            !orders_overflow(assets@),
            assets@.len() == old(assets)@.len(),
            forall|i: int|
                0 <= i < assets@.len() ==> (#[trigger] assets@[i]).0 == old(assets)@[i].0,
            rat_eq(
                rat_total(balances_a(assets@), assets@.len() as int),
                rat_total(balances_a(old(assets)@), old(assets)@.len() as int),
            ),
            rat_eq(
                rat_total(balances_b(assets@), assets@.len() as int),
                rat_total(balances_b(old(assets)@), old(assets)@.len() as int),
            ),
        decreases phi(assets@),
    {
        let ghost before = assets@;
        match execute_one_trade(assets) {
            Err(e) => {
                return Err(e);
            },
            Ok(true) => {
                break;
            },
            Ok(false) => {
                proof {
                    let t = choose|t: Trade|
                        valid_next_trade(before, t) && #[trigger] applied(before, assets@, t);
                    lemma_phi_decreases(before, assets@, t);
                    lemma_trade_conserves(before, assets@, t);
                    lemma_conserve_chain(before, assets@, old(assets)@);
                }
            },
        }
    }
    let rem = sanity_check_endpoint(assets);
    if rem.len() == 0 {
        Ok(())
    } else {
        proof {
            if distinct_prices(old(assets)@) {
                assert forall|i: int, j: int| 0 <= i < j < assets@.len() implies !rat_eq(
                    price_at(assets@, i),
                    price_at(assets@, j),
                ) by {
                    assert(price_at(assets@, i) == price_at(old(assets)@, i));
                    assert(price_at(assets@, j) == price_at(old(assets)@, j));
                }
                let (s, k): (Seq<(Agent, Balance)>, int) = choose|s: Seq<(Agent, Balance)>, k: int|
                    #![trigger s.to_multiset(), s.subrange(k, s.len() as int)]
                    s.to_multiset() == assets@.to_multiset() && sorted_by_price(s) && 0 <= k
                        <= s.len() && rem@ == s.subrange(k, s.len() as int) && (rem@.len() == 0
                        <==> partitioned(s));
                lemma_perm_preserves(assets@, s);
                lemma_terminal_partition(s);
                assert(rem@.len() == 0);
            }
        }
        Err(MarketError::TerminalInconsistency(rem))
    }
}

} // verus!
