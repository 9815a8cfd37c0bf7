//! The economic laws of the engine, stated and proved once and for all:
//! trading at one's own indifference price leaves utility unchanged, every
//! executed trade strictly benefits both parties, balances never go
//! negative, and a terminal market with pairwise distinct indifference
//! prices sorts into the three-segment partition.

use vstd::prelude::*;
use crate::rat::Rat;
use crate::rat::rat_of;
use crate::rat::rat_eq;
use crate::rat::rat_le;
use crate::rat::rat_lt;
use crate::rat::rat_wf;
use crate::rat::rat_add;
use crate::rat::rat_sub;
use crate::rat::rat_mul;
use crate::rat::rat_div;
use crate::rat::lemma_eq_trans;
use crate::rat::lemma_cmp_congr;
use crate::rat::lemma_add_congr;
use crate::rat::lemma_sub_congr;
use crate::rat::lemma_mul_congr;
use crate::rat::lemma_add_comm;
use crate::rat::lemma_add_assoc;
use crate::rat::lemma_add_sub_assoc;
use crate::rat::lemma_mul_distrib;
use crate::rat::lemma_mul_assoc_comm;
use crate::rat::lemma_add_mono;
use crate::rat::lemma_mul_mono;
use crate::rat::lemma_div_cmp;
use crate::rat::lemma_mul_div_cancel;
use crate::rat::lemma_mid_between;
use crate::rat::lemma_sub_add_cancel;
use crate::rat::lemma_ops_wf;
use crate::market::Agent;
use crate::market::Balance;
use crate::market::Trade;
use crate::market::wf_state;
use crate::market::wf_pair;
use crate::market::price_at;
use crate::market::has_bid;
use crate::market::has_ask;
use crate::market::is_terminal;
use crate::market::spec_clearing;
use crate::market::valid_next_trade;
use crate::market::applied;
use crate::driver::sorted_by_price;
use crate::driver::partition_at;
use crate::driver::partitioned;

verus! {

/// Rearranging a four-term sum: `(p + q) + (r - s) == q + ((p + r) - s)`.
proof fn lemma_regroup(p: Rat, q: Rat, r: Rat, s: Rat)
    requires
        rat_wf(p),
        rat_wf(q),
        rat_wf(r),
        rat_wf(s),
    ensures
        rat_eq(rat_add(rat_add(p, q), rat_sub(r, s)), rat_add(q, rat_sub(rat_add(p, r), s))),
{
    lemma_ops_wf(p, q);
    lemma_ops_wf(q, p);
    lemma_ops_wf(p, r);
    lemma_ops_wf(r, s);
    lemma_ops_wf(rat_add(p, q), r);
    lemma_ops_wf(rat_add(q, p), r);
    lemma_ops_wf(q, rat_add(p, r));
    lemma_ops_wf(rat_add(rat_add(p, q), r), s);
    lemma_ops_wf(rat_add(q, rat_add(p, r)), s);
    lemma_ops_wf(rat_add(p, q), rat_sub(r, s));
    lemma_ops_wf(rat_add(p, r), s);
    lemma_ops_wf(q, rat_sub(rat_add(p, r), s));
    lemma_add_sub_assoc(rat_add(p, q), r, s);
    lemma_add_sub_assoc(q, rat_add(p, r), s);
    lemma_add_assoc(q, p, r);
    lemma_add_comm(p, q);
    lemma_add_congr(rat_add(p, q), rat_add(q, p), r, r);
    lemma_eq_trans(rat_add(rat_add(p, q), r), rat_add(rat_add(q, p), r), rat_add(q, rat_add(p, r)));
    lemma_sub_congr(rat_add(rat_add(p, q), r), rat_add(q, rat_add(p, r)), s, s);
    lemma_eq_trans(
        rat_add(rat_add(p, q), rat_sub(r, s)),
        rat_sub(rat_add(rat_add(p, q), r), s),
        rat_sub(rat_add(q, rat_add(p, r)), s),
    );
    lemma_eq_trans(
        rat_add(rat_add(p, q), rat_sub(r, s)),
        rat_sub(rat_add(q, rat_add(p, r)), s),
        rat_add(q, rat_sub(rat_add(p, r), s)),
    );
}

/// Gaining `da` of the first good and paying `db` of the second shifts a
/// linear utility by exactly `ca*da - cb*db`.
proof fn lemma_utility_shift(
    ca: Rat,
    cb: Rat,
    qa: Rat,
    qb: Rat,
    qa2: Rat,
    qb2: Rat,
    da: Rat,
    db: Rat,
)
    requires
        rat_wf(ca),
        rat_wf(cb),
        rat_wf(qa),
        rat_wf(qb),
        rat_wf(qa2),
        rat_wf(qb2),
        rat_wf(da),
        rat_wf(db),
        rat_eq(qa2, rat_add(qa, da)),
        rat_eq(qb2, rat_sub(qb, db)),
    ensures
        rat_eq(
            rat_add(rat_mul(ca, qa2), rat_mul(cb, qb2)),
            rat_add(
                rat_mul(ca, da),
                rat_sub(rat_add(rat_mul(ca, qa), rat_mul(cb, qb)), rat_mul(cb, db)),
            ),
        ),
{
    let aqa = rat_mul(ca, qa);
    let ada = rat_mul(ca, da);
    let bqb = rat_mul(cb, qb);
    let bdb = rat_mul(cb, db);
    lemma_ops_wf(ca, qa);
    lemma_ops_wf(ca, da);
    lemma_ops_wf(cb, qb);
    lemma_ops_wf(cb, db);
    lemma_ops_wf(ca, qa2);
    lemma_ops_wf(cb, qb2);
    lemma_ops_wf(qa, da);
    lemma_ops_wf(qb, db);
    lemma_ops_wf(ca, rat_add(qa, da));
    lemma_ops_wf(cb, rat_sub(qb, db));
    lemma_ops_wf(aqa, ada);
    lemma_ops_wf(bqb, bdb);
    lemma_mul_congr(ca, ca, qa2, rat_add(qa, da));
    lemma_mul_distrib(ca, qa, da);
    lemma_eq_trans(rat_mul(ca, qa2), rat_mul(ca, rat_add(qa, da)), rat_add(aqa, ada));
    lemma_mul_congr(cb, cb, qb2, rat_sub(qb, db));
    lemma_mul_distrib(cb, qb, db);
    lemma_eq_trans(rat_mul(cb, qb2), rat_mul(cb, rat_sub(qb, db)), rat_sub(bqb, bdb));
    lemma_add_congr(rat_mul(ca, qa2), rat_add(aqa, ada), rat_mul(cb, qb2), rat_sub(bqb, bdb));
    lemma_regroup(aqa, ada, bqb, bdb);
    lemma_ops_wf(rat_mul(ca, qa2), rat_mul(cb, qb2));
    lemma_ops_wf(rat_add(aqa, ada), rat_sub(bqb, bdb));
    lemma_ops_wf(aqa, bqb);
    lemma_ops_wf(rat_add(aqa, bqb), bdb);
    lemma_ops_wf(ada, rat_sub(rat_add(aqa, bqb), bdb));
    lemma_eq_trans(
        rat_add(rat_mul(ca, qa2), rat_mul(cb, qb2)),
        rat_add(rat_add(aqa, ada), rat_sub(bqb, bdb)),
        rat_add(ada, rat_sub(rat_add(aqa, bqb), bdb)),
    );
}

/// Indifference invariance: a trade at the agent's own indifference price
/// (paying `price * da` of B for `da` of A, buying or selling) leaves the
/// agent's utility unchanged.
pub proof fn lemma_indifference_invariance(
    agent: Agent,
    qa: Rat,
    qb: Rat,
    qa2: Rat,
    qb2: Rat,
    da: Rat,
    db: Rat,
    buying: bool,
)
    requires
        agent.wf(),
        rat_wf(qa),
        rat_wf(qb),
        rat_wf(qa2),
        rat_wf(qb2),
        rat_wf(da),
        rat_wf(db),
        rat_eq(db, rat_mul(agent.indifference_price@, da)),
        buying ==> rat_eq(qa2, rat_add(qa, da)) && rat_eq(qb2, rat_sub(qb, db)),
        !buying ==> rat_eq(qa2, rat_sub(qa, da)) && rat_eq(qb2, rat_add(qb, db)),
    ensures
        rat_eq(agent.spec_utility(qa, qb), agent.spec_utility(qa2, qb2)),
{
    let ca = agent.consumption_a_coeff@;
    let cb = agent.consumption_b_coeff@;
    let p = agent.indifference_price@;
    lemma_ops_wf(ca, cb);
    lemma_ops_wf(p, da);
    lemma_ops_wf(ca, da);
    lemma_ops_wf(cb, db);
    lemma_ops_wf(cb, p);
    lemma_ops_wf(cb, rat_mul(p, da));
    lemma_ops_wf(rat_mul(cb, p), da);
    lemma_ops_wf(ca, qa);
    lemma_ops_wf(cb, qb);
    lemma_ops_wf(ca, qa2);
    lemma_ops_wf(cb, qb2);
    // cb * db == cb * (p * da) == (cb * p) * da == ca * da
    lemma_mul_congr(cb, cb, db, rat_mul(p, da));
    lemma_mul_assoc_comm(cb, p, da);
    lemma_ops_wf(ca, cb);
    lemma_ops_wf(cb, rat_div(ca, cb));
    lemma_mul_congr(cb, cb, p, rat_div(ca, cb));
    lemma_mul_div_cancel(ca, cb);
    lemma_eq_trans(rat_mul(cb, p), rat_mul(cb, rat_div(ca, cb)), ca);
    lemma_mul_congr(rat_mul(cb, p), ca, da, da);
    lemma_eq_trans(rat_mul(cb, db), rat_mul(cb, rat_mul(p, da)), rat_mul(rat_mul(cb, p), da));
    lemma_eq_trans(rat_mul(cb, db), rat_mul(rat_mul(cb, p), da), rat_mul(ca, da));
    let u1 = rat_add(rat_mul(ca, qa), rat_mul(cb, qb));
    lemma_ops_wf(rat_mul(ca, qa), rat_mul(cb, qb));
    lemma_ops_wf(u1, rat_mul(cb, db));
    lemma_ops_wf(u1, rat_mul(ca, da));
    lemma_ops_wf(rat_mul(ca, da), rat_sub(u1, rat_mul(cb, db)));
    lemma_ops_wf(rat_mul(cb, db), rat_sub(u1, rat_mul(ca, da)));
    lemma_ops_wf(rat_mul(ca, qa2), rat_mul(cb, qb2));
    lemma_ops_wf(rat_mul(cb, qb2), rat_mul(ca, qa2));
    if buying {
        lemma_utility_shift(ca, cb, qa, qb, qa2, qb2, da, db);
        // the shift is ca*da - cb*db, which is zero in value
        lemma_sub_congr(u1, u1, rat_mul(cb, db), rat_mul(ca, da));
        lemma_add_congr(
            rat_mul(ca, da),
            rat_mul(ca, da),
            rat_sub(u1, rat_mul(cb, db)),
            rat_sub(u1, rat_mul(ca, da)),
        );
        lemma_sub_add_cancel(rat_mul(ca, da), u1);
        lemma_ops_wf(rat_mul(ca, da), rat_sub(u1, rat_mul(ca, da)));
        lemma_eq_trans(
            agent.spec_utility(qa2, qb2),
            rat_add(rat_mul(ca, da), rat_sub(u1, rat_mul(cb, db))),
            rat_add(rat_mul(ca, da), rat_sub(u1, rat_mul(ca, da))),
        );
        lemma_eq_trans(
            agent.spec_utility(qa2, qb2),
            rat_add(rat_mul(ca, da), rat_sub(u1, rat_mul(ca, da))),
            u1,
        );
    } else {
        // selling: swap the roles of the goods and reuse the shift
        lemma_utility_shift(cb, ca, qb, qa, qb2, qa2, db, da);
        let u1r = rat_add(rat_mul(cb, qb), rat_mul(ca, qa));
        lemma_ops_wf(rat_mul(cb, qb), rat_mul(ca, qa));
        lemma_ops_wf(u1r, rat_mul(ca, da));
        lemma_ops_wf(rat_mul(cb, db), rat_sub(u1r, rat_mul(ca, da)));
        lemma_add_comm(rat_mul(ca, qa), rat_mul(cb, qb));
        lemma_add_comm(rat_mul(ca, qa2), rat_mul(cb, qb2));
        // shift value is cb*db - ca*da, again zero in value
        lemma_sub_congr(u1r, u1r, rat_mul(ca, da), rat_mul(cb, db));
        lemma_add_congr(
            rat_mul(cb, db),
            rat_mul(cb, db),
            rat_sub(u1r, rat_mul(ca, da)),
            rat_sub(u1r, rat_mul(cb, db)),
        );
        lemma_sub_add_cancel(rat_mul(cb, db), u1r);
        lemma_ops_wf(u1r, rat_mul(cb, db));
        lemma_ops_wf(rat_mul(cb, db), rat_sub(u1r, rat_mul(cb, db)));
        lemma_eq_trans(
            rat_add(rat_mul(cb, qb2), rat_mul(ca, qa2)),
            rat_add(rat_mul(cb, db), rat_sub(u1r, rat_mul(ca, da))),
            rat_add(rat_mul(cb, db), rat_sub(u1r, rat_mul(cb, db))),
        );
        lemma_eq_trans(
            rat_add(rat_mul(cb, qb2), rat_mul(ca, qa2)),
            rat_add(rat_mul(cb, db), rat_sub(u1r, rat_mul(cb, db))),
            u1r,
        );
        lemma_eq_trans(
            agent.spec_utility(qa2, qb2),
            rat_add(rat_mul(cb, qb2), rat_mul(ca, qa2)),
            u1r,
        );
        lemma_eq_trans(agent.spec_utility(qa2, qb2), u1r, u1);
    }
}

/// Strict surplus: settling the selected trade strictly increases both the
/// buyer's and the seller's utility.
pub proof fn lemma_strict_surplus(s0: Seq<(Agent, Balance)>, s1: Seq<(Agent, Balance)>, t: Trade)
    requires
        wf_state(s0),
        wf_state(s1),
        valid_next_trade(s0, t),
        applied(s0, s1, t),
    ensures
        rat_lt(
            s0[t.buyer as int].0.spec_utility(s0[t.buyer as int].1.a@, s0[t.buyer as int].1.b@),
            s1[t.buyer as int].0.spec_utility(s1[t.buyer as int].1.a@, s1[t.buyer as int].1.b@),
        ),
        rat_lt(
            s0[t.seller as int].0.spec_utility(s0[t.seller as int].1.a@, s0[t.seller as int].1.b@),
            s1[t.seller as int].0.spec_utility(s1[t.seller as int].1.a@, s1[t.seller as int].1.b@),
        ),
{
    let b = t.buyer as int;
    let a = t.seller as int;
    assert(wf_pair(s0[b]));
    assert(wf_pair(s0[a]));
    assert(wf_pair(s1[b]));
    assert(wf_pair(s1[a]));
    let buyer = s0[b].0;
    let seller = s0[a].0;
    let ca = buyer.consumption_a_coeff@;
    let cb = buyer.consumption_b_coeff@;
    let sac = seller.consumption_a_coeff@;
    let sbc = seller.consumption_b_coeff@;
    let pb = price_at(s0, b);
    let ps = price_at(s0, a);
    let da = t.amount_a@;
    let db = t.amount_b@;
    let c = spec_clearing(pb, ps);
    lemma_ops_wf(pb, ps);
    lemma_ops_wf(rat_add(pb, ps), rat_add(pb, ps));
    assert(rat_lt(ps, pb));
    lemma_mid_between(ps, pb);
    assert(rat_lt(ps, c) && rat_lt(c, pb));
    // shared arithmetic facts
    lemma_ops_wf(c, da);
    lemma_ops_wf(ca, cb);
    lemma_ops_wf(sac, sbc);
    // --- buyer: cb*db < ca*da because the clearing price is under pb = ca/cb
    let qa0 = s0[b].1.a@;
    let qb0 = s0[b].1.b@;
    let qa1 = s1[b].1.a@;
    let qb1 = s1[b].1.b@;
    lemma_cmp_congr(c, c, pb, rat_div(ca, cb));
    lemma_div_cmp(c, ca, cb);
    assert(rat_lt(rat_mul(cb, c), ca));
    lemma_ops_wf(cb, c);
    lemma_ops_wf(cb, rat_mul(c, da));
    lemma_ops_wf(rat_mul(cb, c), da);
    lemma_ops_wf(cb, db);
    lemma_ops_wf(ca, da);
    lemma_mul_congr(cb, cb, db, rat_mul(c, da));
    lemma_mul_assoc_comm(cb, c, da);
    lemma_eq_trans(rat_mul(cb, db), rat_mul(cb, rat_mul(c, da)), rat_mul(rat_mul(cb, c), da));
    lemma_mul_mono(rat_mul(cb, c), ca, da);
    lemma_cmp_congr(rat_mul(cb, db), rat_mul(rat_mul(cb, c), da), rat_mul(ca, da), rat_mul(ca, da));
    assert(rat_lt(rat_mul(cb, db), rat_mul(ca, da)));
    lemma_utility_shift(ca, cb, qa0, qb0, qa1, qb1, da, db);
    let u1 = rat_add(rat_mul(ca, qa0), rat_mul(cb, qb0));
    let w = rat_sub(u1, rat_mul(cb, db));
    lemma_ops_wf(ca, qa0);
    lemma_ops_wf(cb, qb0);
    lemma_ops_wf(ca, qa1);
    lemma_ops_wf(cb, qb1);
    lemma_ops_wf(rat_mul(ca, qa0), rat_mul(cb, qb0));
    lemma_ops_wf(rat_mul(ca, qa1), rat_mul(cb, qb1));
    lemma_ops_wf(u1, rat_mul(cb, db));
    lemma_ops_wf(rat_mul(cb, db), w);
    lemma_ops_wf(rat_mul(ca, da), w);
    lemma_sub_add_cancel(rat_mul(cb, db), u1);
    lemma_add_mono(rat_mul(cb, db), rat_mul(ca, da), w);
    lemma_cmp_congr(
        u1,
        rat_add(rat_mul(cb, db), w),
        buyer.spec_utility(qa1, qb1),
        rat_add(rat_mul(ca, da), w),
    );
    assert(rat_lt(buyer.spec_utility(qa0, qb0), buyer.spec_utility(qa1, qb1)));
    // --- seller: sac*da < sbc*db because the clearing price is over ps = sac/sbc
    let qa0s = s0[a].1.a@;
    let qb0s = s0[a].1.b@;
    let qa1s = s1[a].1.a@;
    let qb1s = s1[a].1.b@;
    lemma_cmp_congr(ps, rat_div(sac, sbc), c, c);
    lemma_div_cmp(c, sac, sbc);
    assert(rat_lt(sac, rat_mul(sbc, c)));
    lemma_ops_wf(sbc, c);
    lemma_ops_wf(sbc, rat_mul(c, da));
    lemma_ops_wf(rat_mul(sbc, c), da);
    lemma_ops_wf(sbc, db);
    lemma_ops_wf(sac, da);
    lemma_mul_mono(sac, rat_mul(sbc, c), da);
    lemma_mul_congr(sbc, sbc, rat_mul(c, da), db);
    lemma_mul_assoc_comm(sbc, c, da);
    lemma_eq_trans(rat_mul(rat_mul(sbc, c), da), rat_mul(sbc, rat_mul(c, da)), rat_mul(sbc, db));
    lemma_cmp_congr(
        rat_mul(sac, da),
        rat_mul(sac, da),
        rat_mul(rat_mul(sbc, c), da),
        rat_mul(sbc, db),
    );
    assert(rat_lt(rat_mul(sac, da), rat_mul(sbc, db)));
    lemma_utility_shift(sbc, sac, qb0s, qa0s, qb1s, qa1s, db, da);
    let u1r = rat_add(rat_mul(sbc, qb0s), rat_mul(sac, qa0s));
    let w2 = rat_sub(u1r, rat_mul(sac, da));
    lemma_ops_wf(sac, qa0s);
    lemma_ops_wf(sbc, qb0s);
    lemma_ops_wf(sac, qa1s);
    lemma_ops_wf(sbc, qb1s);
    lemma_ops_wf(rat_mul(sbc, qb0s), rat_mul(sac, qa0s));
    lemma_ops_wf(rat_mul(sac, qa0s), rat_mul(sbc, qb0s));
    lemma_ops_wf(rat_mul(sbc, qb1s), rat_mul(sac, qa1s));
    lemma_ops_wf(rat_mul(sac, qa1s), rat_mul(sbc, qb1s));
    lemma_ops_wf(u1r, rat_mul(sac, da));
    lemma_ops_wf(rat_mul(sac, da), w2);
    lemma_ops_wf(rat_mul(sbc, db), w2);
    lemma_sub_add_cancel(rat_mul(sac, da), u1r);
    lemma_add_mono(rat_mul(sac, da), rat_mul(sbc, db), w2);
    lemma_add_comm(rat_mul(sac, qa0s), rat_mul(sbc, qb0s));
    lemma_add_comm(rat_mul(sac, qa1s), rat_mul(sbc, qb1s));
    lemma_eq_trans(seller.spec_utility(qa0s, qb0s), u1r, rat_add(rat_mul(sac, da), w2));
    lemma_eq_trans(
        seller.spec_utility(qa1s, qb1s),
        rat_add(rat_mul(sbc, qb1s), rat_mul(sac, qa1s)),
        rat_add(rat_mul(sbc, db), w2),
    );
    lemma_cmp_congr(
        seller.spec_utility(qa0s, qb0s),
        rat_add(rat_mul(sac, da), w2),
        seller.spec_utility(qa1s, qb1s),
        rat_add(rat_mul(sbc, db), w2),
    );
    assert(rat_lt(seller.spec_utility(qa0s, qb0s), seller.spec_utility(qa1s, qb1s)));
}

/// Non-negativity: in a well-formed population every balance component is a
/// non-negative quantity; settlement keeps the population well-formed, so no
/// balance ever goes negative.
pub proof fn lemma_balances_non_negative(s: Seq<(Agent, Balance)>)
    requires
        wf_state(s),
    ensures
        forall|i: int|
            0 <= i < s.len() ==> rat_le(rat_of(0, 1), #[trigger] s[i].1.a@) && rat_le(
                rat_of(0, 1),
                s[i].1.b@,
            ),
{
    assert forall|i: int|
        0 <= i < s.len() implies rat_le(rat_of(0, 1), #[trigger] s[i].1.a@) && rat_le(
        rat_of(0, 1),
        s[i].1.b@,
    ) by {
        assert(wf_pair(s[i]));
    }
}

/// Index of the first agent from `k` on that still holds good A.
spec fn first_ask_from(s: Seq<(Agent, Balance)>, k: int) -> int
    decreases s.len() - k when 0 <= k <= s.len()
{
    if k >= s.len() {
        k
    } else if has_ask(s, k) {
        k
    } else {
        first_ask_from(s, k + 1)
    }
}

proof fn lemma_first_ask(s: Seq<(Agent, Balance)>, k: int)
    requires
        0 <= k <= s.len(),
    ensures
        k <= first_ask_from(s, k) <= s.len(),
        forall|u: int| k <= u < first_ask_from(s, k) ==> !has_ask(s, u),
        first_ask_from(s, k) < s.len() ==> has_ask(s, first_ask_from(s, k)),
    decreases s.len() - k,
{
    if k < s.len() && !has_ask(s, k) {
        lemma_first_ask(s, k + 1);
    }
}

/// Pairwise distinct indifference prices.
pub open spec fn distinct_prices(s: Seq<(Agent, Balance)>) -> bool {
    forall|i: int, j: int| 0 <= i < j < s.len() ==> !rat_eq(price_at(s, i), price_at(s, j))
}

/// Terminal partition: when no mutually beneficial trade remains and the
/// indifference prices are pairwise distinct, the price-sorted population
/// splits into a prefix out of A, a middle (at most one agent) holding both
/// goods, and a suffix out of B, with no remainder.
pub proof fn lemma_terminal_partition(s: Seq<(Agent, Balance)>)
    requires
        wf_state(s),
        sorted_by_price(s),
        is_terminal(s),
        distinct_prices(s),
    ensures
        partitioned(s),
{
    let n = s.len() as int;
    lemma_first_ask(s, 0);
    let i0 = first_ask_from(s, 0);
    if i0 == n {
        assert(partition_at(s, n, n));
    } else {
        assert(has_ask(s, i0));
        assert forall|k: int| i0 < k < n implies !has_bid(s, k) by {
            if has_bid(s, k) {
                assert(rat_le(price_at(s, i0), price_at(s, k)));
                assert(!rat_eq(price_at(s, i0), price_at(s, k)));
                assert(rat_lt(price_at(s, i0), price_at(s, k)));
                assert(false);
            }
        }
        if has_bid(s, i0) {
            assert(partition_at(s, i0, i0 + 1));
        } else {
            assert(partition_at(s, i0, i0));
        }
    }
    assert(partitioned(s));
}

/// A permutation (multiset-equal reordering) of the population preserves
/// well-formedness, the terminal property and price distinctness: all three
/// depend only on which agent/balance pairs are present.
pub proof fn lemma_perm_preserves(s1: Seq<(Agent, Balance)>, s2: Seq<(Agent, Balance)>)
    requires
        s1.to_multiset() == s2.to_multiset(),
    ensures
        wf_state(s1) ==> wf_state(s2),
        is_terminal(s1) ==> is_terminal(s2),
        distinct_prices(s1) ==> distinct_prices(s2),
{
    broadcast use vstd::seq_lib::group_to_multiset_ensures;

    if wf_state(s1) {
        assert forall|i: int| 0 <= i < s2.len() implies wf_pair(#[trigger] s2[i]) by {
            assert(s2.contains(s2[i]));
            vstd::seq_lib::to_multiset_contains(s2, s2[i]);
            vstd::seq_lib::to_multiset_contains(s1, s2[i]);
            assert(s1.contains(s2[i]));
            let k = choose|k: int| 0 <= k < s1.len() && s1[k] == s2[i];
            assert(wf_pair(s1[k]));
        }
    }
    if is_terminal(s1) {
        assert forall|i: int, j: int|
            0 <= i < s2.len() && 0 <= j < s2.len() && #[trigger] has_bid(s2, i) && #[trigger] has_ask(
            s2,
            j,
        ) implies !rat_lt(price_at(s2, j), price_at(s2, i)) by {
            if rat_lt(price_at(s2, j), price_at(s2, i)) {
                assert(s2.contains(s2[i]));
                assert(s2.contains(s2[j]));
                vstd::seq_lib::to_multiset_contains(s2, s2[i]);
                vstd::seq_lib::to_multiset_contains(s2, s2[j]);
                vstd::seq_lib::to_multiset_contains(s1, s2[i]);
                vstd::seq_lib::to_multiset_contains(s1, s2[j]);
                assert(s1.contains(s2[i]));
                assert(s1.contains(s2[j]));
                let ki = choose|k: int| 0 <= k < s1.len() && s1[k] == s2[i];
                let kj = choose|k: int| 0 <= k < s1.len() && s1[k] == s2[j];
                assert(has_bid(s1, ki) && has_ask(s1, kj));
                assert(!rat_lt(price_at(s1, kj), price_at(s1, ki)));
                assert(false);
            }
        }
    }
    if distinct_prices(s1) {
        assert forall|i: int, j: int| 0 <= i < j < s2.len() implies !rat_eq(
            price_at(s2, i),
            price_at(s2, j),
        ) by {
            if rat_eq(price_at(s2, i), price_at(s2, j)) {
                if s2[i] == s2[j] {
                    // the pair occurs twice in s2, hence twice in s1, whose
                    // prices are then not distinct after all
                    let x = s2[i];
                    s2.remove_ensures(j);
                    vstd::seq_lib::to_multiset_remove(s2, j);
                    assert(s2.remove(j)[i] == x);
                    assert(s2.remove(j).contains(x));
                    vstd::seq_lib::to_multiset_contains(s2.remove(j), x);
                    assert(s2.to_multiset().count(x) >= 2);
                    assert(s1.to_multiset().count(x) >= 2);
                    vstd::seq_lib::to_multiset_contains(s1, x);
                    assert(s1.contains(x));
                    let k1 = choose|k: int| 0 <= k < s1.len() && s1[k] == x;
                    s1.remove_ensures(k1);
                    vstd::seq_lib::to_multiset_remove(s1, k1);
                    assert(s1.remove(k1).to_multiset().count(x) >= 1);
                    vstd::seq_lib::to_multiset_contains(s1.remove(k1), x);
                    assert(s1.remove(k1).contains(x));
                    let k2 = choose|k: int|
                        0 <= k < s1.remove(k1).len() && s1.remove(k1)[k] == x;
                    if k2 < k1 {
                        assert(s1[k2] == x);
                        assert(!rat_eq(price_at(s1, k2), price_at(s1, k1)));
                    } else {
                        assert(s1[k2 + 1] == x);
                        assert(!rat_eq(price_at(s1, k1), price_at(s1, k2 + 1)));
                    }
                    assert(false);
                } else {
                    assert(s2.contains(s2[i]));
                    assert(s2.contains(s2[j]));
                    vstd::seq_lib::to_multiset_contains(s2, s2[i]);
                    vstd::seq_lib::to_multiset_contains(s2, s2[j]);
                    vstd::seq_lib::to_multiset_contains(s1, s2[i]);
                    vstd::seq_lib::to_multiset_contains(s1, s2[j]);
                    assert(s1.contains(s2[i]));
                    assert(s1.contains(s2[j]));
                    let ki = choose|k: int| 0 <= k < s1.len() && s1[k] == s2[i];
                    let kj = choose|k: int| 0 <= k < s1.len() && s1[k] == s2[j];
                    assert(ki != kj);
                    if ki < kj {
                        assert(!rat_eq(price_at(s1, ki), price_at(s1, kj)));
                    } else {
                        assert(!rat_eq(price_at(s1, kj), price_at(s1, ki)));
                    }
                    assert(false);
                }
            }
        }
    }
}

} // verus!
