//! The market-clearing engine: order generation, matching, clearing-price
//! and quantity calculation, and settlement of one trade.
//!
//! Tie-breaking: among equally priced bids (asks) the agent with the lowest
//! identifier is chosen, which makes the matcher deterministic.

use vstd::prelude::*;
use crate::rat::Rat;
use crate::rat::Ratio;
use crate::rat::rat_eq;
use crate::rat::rat_le;
use crate::rat::rat_lt;
use crate::rat::rat_pos;
use crate::rat::rat_wf;
use crate::rat::rat_add;
use crate::rat::rat_sub;
use crate::rat::rat_mul;
use crate::rat::rat_div;
use crate::rat::rat_half;
use crate::rat::lemma_eq_trans;
use crate::rat::lemma_cmp_congr;
use crate::rat::lemma_pos_congr;
use crate::rat::lemma_le_trans;
use crate::rat::lemma_add_congr;
use crate::rat::lemma_mul_congr;
use crate::rat::lemma_div_congr;
use crate::rat::lemma_half_congr;
use crate::rat::lemma_ops_wf;
use crate::rat::lemma_div_cmp;
use crate::rat::lemma_mul_div_cancel;

verus! {

/// An agent: production capacities (used only when a population is set up)
/// and strictly positive marginal utilities for the two goods. The
/// indifference price `consumption_a_coeff / consumption_b_coeff` is computed
/// once at construction and carried along.
#[derive(Clone, Copy, PartialEq, Eq, Structural, Debug)]
pub struct Agent {
    pub production_a: Ratio,
    pub production_b: Ratio,
    pub consumption_a_coeff: Ratio,
    pub consumption_b_coeff: Ratio,
    pub indifference_price: Ratio,
}

/// The mutable holdings of one agent: non-negative quantities of each good.
#[derive(Clone, Copy, PartialEq, Eq, Structural, Debug)]
pub struct Balance {
    pub a: Ratio,
    pub b: Ratio,
}

pub type AgentId = usize;

/// The single trade chosen for execution: `amount_a` moves seller to buyer,
/// `amount_b` moves buyer to seller.
#[derive(Clone, Copy, PartialEq, Eq, Structural, Debug)]
pub struct Trade {
    pub buyer: AgentId,
    pub seller: AgentId,
    pub amount_a: Ratio,
    pub amount_b: Ratio,
}

#[derive(Clone, Copy, PartialEq, Eq, Structural, Debug)]
pub enum OrderType {
    Bid,
    Ask,
}

/// A willingness to buy (sell) up to `amount_a` units of good A at the given
/// price in units of good B; regenerated from the balances every round.
#[derive(Clone, Copy, PartialEq, Eq, Structural, Debug)]
pub struct Order {
    pub agent_id: AgentId,
    pub typ: OrderType,
    pub amount_a: Ratio,
    pub price_per_a_in_b: Ratio,
}

/// Unrecoverable failures: an exact-arithmetic result that does not fit in
/// `u64` after reduction, or a terminal allocation outside the expected
/// three-segment partition (the offending agents are listed).
#[derive(Debug)]
pub enum MarketError {
    Overflow,
    TerminalInconsistency(Vec<(Agent, Balance)>),
}

impl Balance {
    pub open spec fn wf(self) -> bool {
        self.a.wf() && self.b.wf()
    }
}

impl Agent {
    /// Coefficients are strictly positive and the cached indifference price
    /// equals their quotient.
    pub open spec fn wf(self) -> bool {
        &&& self.production_a.wf()
        &&& self.production_b.wf()
        &&& self.consumption_a_coeff.wf()
        &&& self.consumption_b_coeff.wf()
        &&& rat_pos(self.consumption_a_coeff@)
        &&& rat_pos(self.consumption_b_coeff@)
        &&& self.indifference_price.wf()
        &&& rat_pos(self.indifference_price@)
        &&& rat_eq(
            self.indifference_price@,
            rat_div(self.consumption_a_coeff@, self.consumption_b_coeff@),
        )
    }

    /// Builds an agent; rejects a non-positive consumption coefficient (the
    /// indifference price would be undefined) and a price that does not fit.
    pub fn new(
        production_a: Ratio,
        production_b: Ratio,
        consumption_a_coeff: Ratio,
        consumption_b_coeff: Ratio,
    ) -> (r: Option<Agent>)
        requires
            production_a.wf(),
            production_b.wf(),
            consumption_a_coeff.wf(),
            consumption_b_coeff.wf(),
        ensures
            r is Some <==> (rat_pos(consumption_a_coeff@) && rat_pos(consumption_b_coeff@)
                && Ratio::div_fits(consumption_a_coeff@, consumption_b_coeff@)),
            r matches Some(a) ==> (a.wf() && a.production_a == production_a && a.production_b
                == production_b && a.consumption_a_coeff == consumption_a_coeff
                && a.consumption_b_coeff == consumption_b_coeff),
    {
        if !consumption_a_coeff.is_pos() || !consumption_b_coeff.is_pos() {
            return None;
        }
        match consumption_a_coeff.div(consumption_b_coeff) {
            None => None,
            Some(price) => Some(
                Agent {
                    production_a: production_a,
                    production_b: production_b,
                    consumption_a_coeff: consumption_a_coeff,
                    consumption_b_coeff: consumption_b_coeff,
                    indifference_price: price,
                },
            ),
        }
    }

    /// Linear utility value `coeff_a * qa + coeff_b * qb`.
    pub open spec fn spec_utility(self, qa: Rat, qb: Rat) -> Rat {
        rat_add(rat_mul(self.consumption_a_coeff@, qa), rat_mul(self.consumption_b_coeff@, qb))
    }

    pub open spec fn utility_fits(self, qa: Rat, qb: Rat) -> bool {
        &&& Ratio::mul_fits(self.consumption_a_coeff@, qa)
        &&& Ratio::mul_fits(self.consumption_b_coeff@, qb)
        &&& Ratio::add_fits(
            Ratio::mul_rep(self.consumption_a_coeff@, qa),
            Ratio::mul_rep(self.consumption_b_coeff@, qb),
        )
    }

    /// Utility of consuming the given quantities; exact, `None` on overflow.
    pub fn utility(&self, consumption_a: Ratio, consumption_b: Ratio) -> (r: Option<Ratio>)
        requires
            self.wf(),
            consumption_a.wf(),
            consumption_b.wf(),
        ensures
            r is Some <==> self.utility_fits(consumption_a@, consumption_b@),
            r matches Some(u) ==> (u.wf() && rat_eq(
                u@,
                self.spec_utility(consumption_a@, consumption_b@),
            )),
    {
        let ua = match self.consumption_a_coeff.mul(consumption_a) {
            None => {
                return None;
            },
            Some(x) => x,
        };
        let ub = match self.consumption_b_coeff.mul(consumption_b) {
            None => {
                return None;
            },
            Some(x) => x,
        };
        let r = ua.add(ub);
        proof {
            if r is Some {
                let rv = r->Some_0;
                lemma_ops_wf(self.consumption_a_coeff@, consumption_a@);
                lemma_ops_wf(self.consumption_b_coeff@, consumption_b@);
                lemma_ops_wf(ua@, ub@);
                lemma_ops_wf(
                    rat_mul(self.consumption_a_coeff@, consumption_a@),
                    rat_mul(self.consumption_b_coeff@, consumption_b@),
                );
                lemma_add_congr(
                    ua@,
                    rat_mul(self.consumption_a_coeff@, consumption_a@),
                    ub@,
                    rat_mul(self.consumption_b_coeff@, consumption_b@),
                );
                lemma_eq_trans(
                    rv@,
                    rat_add(ua@, ub@),
                    self.spec_utility(consumption_a@, consumption_b@),
                );
            }
        }
        r
    }

    /// The exchange rate of A in B at which this agent is indifferent.
    pub fn indifference_price_of_a_in_b(&self) -> (r: Ratio)
        requires
            self.wf(),
        ensures
            r == self.indifference_price,
            rat_eq(r@, rat_div(self.consumption_a_coeff@, self.consumption_b_coeff@)),
    {
        self.indifference_price
    }
}

/// Well-formedness of one population entry.
pub open spec fn wf_pair(p: (Agent, Balance)) -> bool {
    p.0.wf() && p.1.wf()
}

/// Well-formedness of the whole population.
pub open spec fn wf_state(s: Seq<(Agent, Balance)>) -> bool {
    forall|i: int| 0 <= i < s.len() ==> wf_pair(#[trigger] s[i])
}

pub open spec fn price_at(s: Seq<(Agent, Balance)>, i: int) -> Rat {
    s[i].0.indifference_price@
}

/// The agent would post a bid: it holds some of good B.
pub open spec fn has_bid(s: Seq<(Agent, Balance)>, i: int) -> bool {
    rat_pos(s[i].1.b@)
}

/// The agent would post an ask: it holds some of good A.
pub open spec fn has_ask(s: Seq<(Agent, Balance)>, i: int) -> bool {
    rat_pos(s[i].1.a@)
}

/// No pair of agents admits a further mutually beneficial trade: no holder of
/// B values A strictly above some holder of A.
pub open spec fn is_terminal(s: Seq<(Agent, Balance)>) -> bool {
    forall|i: int, j: int|
        0 <= i < s.len() && 0 <= j < s.len() && #[trigger] has_bid(s, i) && #[trigger] has_ask(
            s,
            j,
        ) ==> !rat_lt(price_at(s, j), price_at(s, i))
}

/// `i` is the highest-priced bidder, lowest index on ties.
pub open spec fn is_chosen_buyer(s: Seq<(Agent, Balance)>, i: int) -> bool {
    &&& 0 <= i < s.len()
    &&& has_bid(s, i)
    &&& forall|k: int|
        0 <= k < s.len() && #[trigger] has_bid(s, k) ==> rat_le(price_at(s, k), price_at(s, i))
    &&& forall|k: int|
        0 <= k < i && #[trigger] has_bid(s, k) ==> rat_lt(price_at(s, k), price_at(s, i))
}

/// An ask priced strictly under the buyer's bid yields positive surplus.
pub open spec fn qualifies_ask(s: Seq<(Agent, Balance)>, b: int, j: int) -> bool {
    0 <= j < s.len() && has_ask(s, j) && rat_lt(price_at(s, j), price_at(s, b))
}

/// `j` is the lowest-priced qualifying ask, lowest index on ties.
pub open spec fn is_chosen_seller(s: Seq<(Agent, Balance)>, b: int, j: int) -> bool {
    &&& qualifies_ask(s, b, j)
    &&& forall|k: int|
        #[trigger] qualifies_ask(s, b, k) ==> rat_le(price_at(s, j), price_at(s, k))
    &&& forall|k: int|
        0 <= k < j && #[trigger] qualifies_ask(s, b, k) ==> rat_lt(price_at(s, j), price_at(s, k))
}

/// Midpoint clearing price of a matched pair, as a value.
pub open spec fn spec_clearing(pb: Rat, ps: Rat) -> Rat {
    rat_half(rat_add(pb, ps))
}

/// The reduced representation the engine computes for the clearing price.
pub open spec fn clearing_rep(pb: Rat, ps: Rat) -> Rat {
    Ratio::half_rep(Ratio::add_rep(pb, ps))
}

pub open spec fn afford_rep(pb: Rat, ps: Rat, bb: Rat) -> Rat {
    Ratio::div_rep(bb, clearing_rep(pb, ps))
}

/// The buyer's whole B holding buys less A than the seller offers.
pub open spec fn buyer_constrained(pb: Rat, ps: Rat, bb: Rat, sa: Rat) -> bool {
    rat_lt(afford_rep(pb, ps, bb), sa)
}

pub open spec fn amount_a_rep(pb: Rat, ps: Rat, bb: Rat, sa: Rat) -> Rat {
    if buyer_constrained(pb, ps, bb, sa) {
        afford_rep(pb, ps, bb)
    } else {
        sa
    }
}

pub open spec fn amount_b_rep(pb: Rat, ps: Rat, bb: Rat, sa: Rat) -> Rat {
    if buyer_constrained(pb, ps, bb, sa) {
        bb
    } else {
        Ratio::mul_rep(clearing_rep(pb, ps), sa)
    }
}

/// All intermediate results of the clearing calculation fit in `u64`.
pub open spec fn trade_fits(pb: Rat, ps: Rat, bb: Rat, sa: Rat) -> bool {
    &&& Ratio::add_fits(pb, ps)
    &&& Ratio::half_fits(Ratio::add_rep(pb, ps))
    &&& Ratio::div_fits(bb, clearing_rep(pb, ps))
    &&& (buyer_constrained(pb, ps, bb, sa) || Ratio::mul_fits(clearing_rep(pb, ps), sa))
}

/// Some agent's bid amount (`b / price`) does not fit in `u64`.
pub open spec fn orders_overflow(s: Seq<(Agent, Balance)>) -> bool {
    exists|i: int|
        0 <= i < s.len() && #[trigger] has_bid(s, i) && !Ratio::div_fits(s[i].1.b@, price_at(s, i))
}

/// Every chosen pair (there is at most one) admits the clearing calculation.
pub open spec fn next_fits(s: Seq<(Agent, Balance)>) -> bool {
    forall|i: int, j: int|
        is_chosen_buyer(s, i) && #[trigger] is_chosen_seller(s, i, j) ==> trade_fits(
            price_at(s, i),
            price_at(s, j),
            s[i].1.b@,
            s[j].1.a@,
        )
}

/// `t` is exactly the trade the matching rule selects on `s`.
pub open spec fn valid_next_trade(s: Seq<(Agent, Balance)>, t: Trade) -> bool {
    let pb = price_at(s, t.buyer as int);
    let ps = price_at(s, t.seller as int);
    let bb = s[t.buyer as int].1.b@;
    let sa = s[t.seller as int].1.a@;
    &&& is_chosen_buyer(s, t.buyer as int)
    &&& is_chosen_seller(s, t.buyer as int, t.seller as int)
    &&& t.buyer != t.seller
    &&& t.amount_a.wf()
    &&& t.amount_b.wf()
    &&& t.amount_a@ == amount_a_rep(pb, ps, bb, sa)
    &&& t.amount_b@ == amount_b_rep(pb, ps, bb, sa)
    &&& rat_pos(t.amount_a@)
    &&& rat_pos(t.amount_b@)
    &&& rat_le(t.amount_a@, sa)
    &&& rat_le(t.amount_b@, bb)
    &&& rat_eq(t.amount_b@, rat_mul(spec_clearing(pb, ps), t.amount_a@))
    &&& (rat_eq(t.amount_b@, bb) || t.amount_a@ == sa)
}

/// Two chosen buyers coincide.
pub proof fn lemma_chosen_buyer_unique(s: Seq<(Agent, Balance)>, i: int, j: int)
    requires
        is_chosen_buyer(s, i),
        is_chosen_buyer(s, j),
    ensures
        i == j,
{
    if i < j {
        assert(rat_lt(price_at(s, i), price_at(s, j)));
        assert(rat_le(price_at(s, j), price_at(s, i)));
    }
    if j < i {
        assert(rat_lt(price_at(s, j), price_at(s, i)));
        assert(rat_le(price_at(s, i), price_at(s, j)));
    }
}

/// Two chosen sellers for the same buyer coincide.
pub proof fn lemma_chosen_seller_unique(s: Seq<(Agent, Balance)>, b: int, i: int, j: int)
    requires
        is_chosen_seller(s, b, i),
        is_chosen_seller(s, b, j),
    ensures
        i == j,
{
    if i < j {
        assert(qualifies_ask(s, b, i));
        assert(rat_lt(price_at(s, j), price_at(s, i)));
        assert(rat_le(price_at(s, i), price_at(s, j)));
    }
    if j < i {
        assert(qualifies_ask(s, b, j));
        assert(rat_lt(price_at(s, i), price_at(s, j)));
        assert(rat_le(price_at(s, j), price_at(s, i)));
    }
}

/// Generates at most one bid and one ask for one agent, per the order rules:
/// a bid (for `b / price` units, at the indifference price) exists exactly
/// when the agent holds B; an ask (for the whole A holding, at the
/// indifference price) exactly when it holds A.
pub fn generate_orders(agent_id: AgentId, agent: &Agent, balance: &Balance) -> (r: Result<
    (Option<Order>, Option<Order>),
    MarketError,
>)
    requires
        agent.wf(),
        balance.wf(),
    ensures
        r is Err <==> (rat_pos(balance.b@) && !Ratio::div_fits(
            balance.b@,
            agent.indifference_price@,
        )),
        r matches Err(e) ==> e is Overflow,
        r matches Ok(p) ==> ({
            &&& (p.0 is Some <==> rat_pos(balance.b@))
            &&& (p.0 matches Some(o) ==> (o.agent_id == agent_id && o.typ is Bid
                && o.price_per_a_in_b == agent.indifference_price && o.amount_a.wf()
                && o.amount_a@ == Ratio::div_rep(balance.b@, agent.indifference_price@)))
            &&& (p.1 is Some <==> rat_pos(balance.a@))
            &&& (p.1 matches Some(o) ==> (o.agent_id == agent_id && o.typ is Ask
                && o.price_per_a_in_b == agent.indifference_price && o.amount_a == balance.a))
        }),
{
    let bid = if balance.b.is_pos() {
        match balance.b.div(agent.indifference_price) {
            None => {
                return Err(MarketError::Overflow);
            },
            Some(q) => Some(
                Order {
                    agent_id: agent_id,
                    typ: OrderType::Bid,
                    amount_a: q,
                    price_per_a_in_b: agent.indifference_price,
                },
            ),
        }
    } else {
        None
    };
    let ask = if balance.a.is_pos() {
        Some(
            Order {
                agent_id: agent_id,
                typ: OrderType::Ask,
                amount_a: balance.a,
                price_per_a_in_b: agent.indifference_price,
            },
        )
    } else {
        None
    };
    Ok((bid, ask))
}

/// What the matcher records about the orders of one agent.
pub open spec fn order_entry_ok(
    s: Seq<(Agent, Balance)>,
    k: int,
    p: (Option<Order>, Option<Order>),
) -> bool {
    &&& (p.0 is Some <==> has_bid(s, k))
    &&& (p.0 matches Some(o) ==> o.price_per_a_in_b == s[k].0.indifference_price)
    &&& (p.1 is Some <==> has_ask(s, k))
    &&& (p.1 matches Some(o) ==> o.price_per_a_in_b == s[k].0.indifference_price)
}

/// Scans all agents' orders and selects the next trade: the highest-priced
/// bid against the lowest-priced ask strictly under it, cleared at the
/// midpoint price, the quantity capped by whichever of the buyer's B holding
/// and the seller's A holding binds first. Pure: the population is not
/// changed. `Ok(None)` reports that no mutually beneficial trade remains.
pub fn find_next_trade(assets: &Vec<(Agent, Balance)>) -> (r: Result<
    Option<Trade>,
    MarketError,
>)
    requires
        wf_state(assets@),
    ensures
        r matches Ok(Some(t)) ==> valid_next_trade(assets@, t),
        (r matches Ok(None)) <==> (!orders_overflow(assets@) && is_terminal(assets@)),
        (r is Err) <==> (orders_overflow(assets@) || (!is_terminal(assets@) && !next_fits(
            assets@,
        ))),
        r matches Err(e) ==> e is Overflow,
{
    let ghost s = assets@;
    let n = assets.len();
    let mut orders: Vec<(Option<Order>, Option<Order>)> = Vec::new();
    let mut idx: usize = 0;
    while idx < n
        invariant
            wf_state(s),
            s == assets@,
            n == s.len(),
            idx <= n,
            orders@.len() == idx as int,
            forall|k: int| 0 <= k < idx ==> order_entry_ok(s, k, #[trigger] orders@[k]),
            forall|k: int|
                0 <= k < idx && #[trigger] has_bid(s, k) ==> Ratio::div_fits(
                    s[k].1.b@,
                    price_at(s, k),
                ),
        decreases n - idx,
    {
        let pair = assets[idx];
        match generate_orders(idx, &pair.0, &pair.1) {
            Err(_) => {
                proof {
                    assert(pair == s[idx as int]);
                    assert(has_bid(s, idx as int) && !Ratio::div_fits(
                        s[idx as int].1.b@,
                        price_at(s, idx as int),
                    ));
                    assert(orders_overflow(s));
                }
                return Err(MarketError::Overflow);
            },
            Ok(p) => {
                orders.push(p);
            },
        }
        idx += 1;
    }
    proof {
        assert(!orders_overflow(s));
    }
    // highest-priced bid, lowest agent id on ties
    let mut best_bid: usize = 0;
    let mut best_bid_price = Ratio { num: 1, den: 1 };
    let mut have_bid = false;
    idx = 0;
    while idx < n
        invariant
            wf_state(s),
            s == assets@,
            n == s.len(),
            idx <= n,
            orders@.len() == n as int,
            forall|k: int| 0 <= k < n ==> order_entry_ok(s, k, #[trigger] orders@[k]),
            have_bid ==> ({
                &&& best_bid < idx
                &&& has_bid(s, best_bid as int)
                &&& best_bid_price == s[best_bid as int].0.indifference_price
                &&& forall|k: int|
                    0 <= k < idx && #[trigger] has_bid(s, k) ==> rat_le(
                        price_at(s, k),
                        price_at(s, best_bid as int),
                    )
                &&& forall|k: int|
                    0 <= k < best_bid && #[trigger] has_bid(s, k) ==> rat_lt(
                        price_at(s, k),
                        price_at(s, best_bid as int),
                    )
            }),
            !have_bid ==> forall|k: int| 0 <= k < idx ==> !has_bid(s, k),
        decreases n - idx,
    {
        if let Some(o) = orders[idx].0 {
            if !have_bid {
                best_bid = idx;
                best_bid_price = o.price_per_a_in_b;
                have_bid = true;
            } else if best_bid_price.lt(o.price_per_a_in_b) {
                proof {
                    let ob = best_bid as int;
                    assert forall|k: int|
                        0 <= k < idx + 1 && #[trigger] has_bid(s, k) implies rat_le(
                        price_at(s, k),
                        price_at(s, idx as int),
                    ) by {
                        if k < idx {
                            lemma_le_trans(
                                price_at(s, k),
                                price_at(s, ob),
                                price_at(s, idx as int),
                            );
                        }
                    }
                    assert forall|k: int|
                        0 <= k < idx && #[trigger] has_bid(s, k) implies rat_lt(
                        price_at(s, k),
                        price_at(s, idx as int),
                    ) by {
                        lemma_le_trans(price_at(s, k), price_at(s, ob), price_at(s, idx as int));
                    }
                }
                best_bid = idx;
                best_bid_price = o.price_per_a_in_b;
            }
        }
        idx += 1;
    }
    if !have_bid {
        return Ok(None);
    }
    let ghost bi = best_bid as int;
    // lowest-priced ask strictly under the best bid, lowest agent id on ties
    let mut best_ask: usize = 0;
    let mut best_ask_price = Ratio { num: 1, den: 1 };
    let mut have_ask = false;
    idx = 0;
    while idx < n
        invariant
            wf_state(s),
            s == assets@,
            n == s.len(),
            idx <= n,
            orders@.len() == n as int,
            forall|k: int| 0 <= k < n ==> order_entry_ok(s, k, #[trigger] orders@[k]),
            is_chosen_buyer(s, bi),
            best_bid == bi,
            best_bid_price == s[bi].0.indifference_price,
            have_ask ==> ({
                &&& best_ask < idx
                &&& qualifies_ask(s, bi, best_ask as int)
                &&& best_ask_price == s[best_ask as int].0.indifference_price
                &&& forall|k: int|
                    0 <= k < idx && #[trigger] qualifies_ask(s, bi, k) ==> rat_le(
                        price_at(s, best_ask as int),
                        price_at(s, k),
                    )
                &&& forall|k: int|
                    0 <= k < best_ask && #[trigger] qualifies_ask(s, bi, k) ==> rat_lt(
                        price_at(s, best_ask as int),
                        price_at(s, k),
                    )
            }),
            !have_ask ==> forall|k: int| 0 <= k < idx ==> !qualifies_ask(s, bi, k),
        decreases n - idx,
    {
        if let Some(o) = orders[idx].1 {
            if o.price_per_a_in_b.lt(best_bid_price) {
                if !have_ask {
                    best_ask = idx;
                    best_ask_price = o.price_per_a_in_b;
                    have_ask = true;
                } else if o.price_per_a_in_b.lt(best_ask_price) {
                    proof {
                        let oa = best_ask as int;
                        assert forall|k: int|
                            0 <= k < idx + 1 && #[trigger] qualifies_ask(s, bi, k) implies rat_le(
                            price_at(s, idx as int),
                            price_at(s, k),
                        ) by {
                            if k < idx {
                                lemma_le_trans(
                                    price_at(s, idx as int),
                                    price_at(s, oa),
                                    price_at(s, k),
                                );
                            }
                        }
                        assert forall|k: int|
                            0 <= k < idx && #[trigger] qualifies_ask(s, bi, k) implies rat_lt(
                            price_at(s, idx as int),
                            price_at(s, k),
                        ) by {
                            lemma_le_trans(
                                price_at(s, idx as int),
                                price_at(s, oa),
                                price_at(s, k),
                            );
                        }
                    }
                    best_ask = idx;
                    best_ask_price = o.price_per_a_in_b;
                }
            }
        }
        idx += 1;
    }
    if !have_ask {
        proof {
            assert forall|i: int, j: int|
                0 <= i < s.len() && 0 <= j < s.len() && #[trigger] has_bid(s, i)
                    && #[trigger] has_ask(s, j) implies !rat_lt(price_at(s, j), price_at(s, i)) by {
                if rat_lt(price_at(s, j), price_at(s, i)) {
                    lemma_le_trans(price_at(s, j), price_at(s, i), price_at(s, bi));
                    assert(qualifies_ask(s, bi, j));
                }
            }
        }
        return Ok(None);
    }
    let ghost si = best_ask as int;
    proof {
        assert(!is_terminal(s));
        assert(best_bid != best_ask);
    }
    // clearing price and quantities, re-read from the current balances
    let buyer_balance = assets[best_bid].1;
    let seller_balance = assets[best_ask].1;
    let ghost pb = price_at(s, bi);
    let ghost ps = price_at(s, si);
    let ghost bb = s[bi].1.b@;
    let ghost sa = s[si].1.a@;
    let ghost clv = spec_clearing(pb, ps);
    proof {
        lemma_ops_wf(pb, ps);
        lemma_ops_wf(rat_add(pb, ps), rat_add(pb, ps));
        lemma_not_fits_not_next(s, bi, si);
    }
    let c2 = match best_bid_price.add(best_ask_price) {
        None => {
            return Err(MarketError::Overflow);
        },
        Some(x) => x,
    };
    let c = match c2.half() {
        None => {
            return Err(MarketError::Overflow);
        },
        Some(x) => x,
    };
    proof {
        lemma_half_congr(c2@, rat_add(pb, ps));
        lemma_eq_trans(c@, rat_half(c2@), clv);
        lemma_pos_congr(c@, clv);
        lemma_ops_wf(bb, c@);
        lemma_ops_wf(bb, clv);
    }
    let afford = match buyer_balance.b.div(c) {
        None => {
            return Err(MarketError::Overflow);
        },
        Some(x) => x,
    };
    proof {
        lemma_div_congr(bb, bb, c@, clv);
        lemma_eq_trans(afford@, rat_div(bb, c@), rat_div(bb, clv));
    }
    if afford.lt(seller_balance.a) {
        // the buyer's whole B holding binds
        let t = Trade {
            buyer: best_bid,
            seller: best_ask,
            amount_a: afford,
            amount_b: buyer_balance.b,
        };
        proof {
            lemma_mul_div_cancel(bb, clv);
            lemma_mul_congr(clv, clv, afford@, rat_div(bb, clv));
            lemma_ops_wf(clv, afford@);
            lemma_ops_wf(clv, rat_div(bb, clv));
            lemma_eq_trans(rat_mul(clv, afford@), rat_mul(clv, rat_div(bb, clv)), bb);
            lemma_all_chosen_fit(s, bi, si);
        }
        Ok(Some(t))
    } else {
        let ab = match c.mul(seller_balance.a) {
            None => {
                return Err(MarketError::Overflow);
            },
            Some(x) => x,
        };
        let t = Trade {
            buyer: best_bid,
            seller: best_ask,
            amount_a: seller_balance.a,
            amount_b: ab,
        };
        proof {
            lemma_cmp_congr(sa, sa, afford@, rat_div(bb, clv));
            lemma_div_cmp(sa, bb, clv);
            lemma_mul_congr(c@, clv, sa, sa);
            lemma_ops_wf(c@, sa);
            lemma_ops_wf(clv, sa);
            lemma_eq_trans(ab@, rat_mul(c@, sa), rat_mul(clv, sa));
            lemma_cmp_congr(ab@, rat_mul(clv, sa), bb, bb);
            lemma_all_chosen_fit(s, bi, si);
        }
        Ok(Some(t))
    }
}

/// If the chosen pair is this one and its calculation fits, every chosen
/// pair's calculation fits (there is only one chosen pair).
proof fn lemma_all_chosen_fit(s: Seq<(Agent, Balance)>, b: int, a: int)
    requires
        is_chosen_buyer(s, b),
        is_chosen_seller(s, b, a),
        trade_fits(price_at(s, b), price_at(s, a), s[b].1.b@, s[a].1.a@),
    ensures
        next_fits(s),
{
    assert forall|i: int, j: int|
        is_chosen_buyer(s, i) && #[trigger] is_chosen_seller(s, i, j) implies trade_fits(
        price_at(s, i),
        price_at(s, j),
        s[i].1.b@,
        s[j].1.a@,
    ) by {
        lemma_chosen_buyer_unique(s, i, b);
        lemma_chosen_seller_unique(s, b, j, a);
    }
}

/// If this chosen pair's calculation does not fit, no chosen pair's does.
proof fn lemma_not_fits_not_next(s: Seq<(Agent, Balance)>, b: int, a: int)
    requires
        is_chosen_buyer(s, b),
        is_chosen_seller(s, b, a),
    ensures
        !trade_fits(price_at(s, b), price_at(s, a), s[b].1.b@, s[a].1.a@) ==> !next_fits(s),
{
}

/// All four balance updates of the settlement fit in `u64`.
pub open spec fn settle_fits(s: Seq<(Agent, Balance)>, i: int, j: int) -> bool {
    let pb = price_at(s, i);
    let ps = price_at(s, j);
    let bb = s[i].1.b@;
    let sa = s[j].1.a@;
    let aa = amount_a_rep(pb, ps, bb, sa);
    let ab = amount_b_rep(pb, ps, bb, sa);
    &&& Ratio::add_fits(s[i].1.a@, aa)
    &&& Ratio::sub_fits(sa, aa)
    &&& Ratio::sub_fits(bb, ab)
    &&& Ratio::add_fits(s[j].1.b@, ab)
}

/// Every chosen pair (there is at most one) admits the settlement.
pub open spec fn settle_ok(s: Seq<(Agent, Balance)>) -> bool {
    forall|i: int, j: int|
        is_chosen_buyer(s, i) && #[trigger] is_chosen_seller(s, i, j) ==> settle_fits(s, i, j)
}

/// Executing one round fails exactly when some exact-arithmetic result of
/// the order generation, the clearing calculation or the settlement does not
/// fit in `u64` after reduction.
pub open spec fn step_overflow(s: Seq<(Agent, Balance)>) -> bool {
    orders_overflow(s) || (!is_terminal(s) && !(next_fits(s) && settle_ok(s)))
}

/// `s1` is `s0` with the trade `t` settled: `amount_a` moved from seller to
/// buyer, `amount_b` from buyer to seller, everything else untouched. The
/// trade empties the buyer's B holding or the seller's A holding, and the
/// seller ends up holding some B.
pub open spec fn applied(s0: Seq<(Agent, Balance)>, s1: Seq<(Agent, Balance)>, t: Trade) -> bool {
    let b = t.buyer as int;
    let a = t.seller as int;
    &&& s1.len() == s0.len()
    &&& 0 <= b < s0.len()
    &&& 0 <= a < s0.len()
    &&& b != a
    &&& forall|i: int| 0 <= i < s0.len() && i != b && i != a ==> s1[i] == s0[i]
    &&& s1[b].0 == s0[b].0
    &&& s1[a].0 == s0[a].0
    &&& rat_eq(s1[b].1.a@, rat_add(s0[b].1.a@, t.amount_a@))
    &&& rat_eq(s1[a].1.a@, rat_sub(s0[a].1.a@, t.amount_a@))
    &&& rat_eq(s1[b].1.b@, rat_sub(s0[b].1.b@, t.amount_b@))
    &&& rat_eq(s1[a].1.b@, rat_add(s0[a].1.b@, t.amount_b@))
    &&& rat_pos(s1[a].1.b@)
    &&& (!rat_pos(s1[b].1.b@) || !rat_pos(s1[a].1.a@))
}

/// Finds and settles the next trade in place. Returns `Ok(true)` ("done")
/// exactly when the market admits no further trade; `Ok(false)` after
/// settling one trade; on overflow the population is left unchanged. No
/// balance ever becomes negative (they stay well-formed non-negative
/// rationals), and the settled trade carries the facts the surplus and
/// termination arguments need.
pub fn execute_one_trade(assets: &mut Vec<(Agent, Balance)>) -> (r: Result<bool, MarketError>)
    requires
        wf_state(old(assets)@),
    ensures
        wf_state(final(assets)@),
        final(assets)@.len() == old(assets)@.len(),
        (r matches Ok(true)) <==> (!orders_overflow(old(assets)@) && is_terminal(old(assets)@)),
        r matches Ok(true) ==> final(assets)@ == old(assets)@,
        r matches Ok(false) ==> (exists|t: Trade|
            valid_next_trade(old(assets)@, t) && #[trigger] applied(
                old(assets)@,
                final(assets)@,
                t,
            )),
        (r is Err) <==> step_overflow(old(assets)@),
        r is Err ==> final(assets)@ == old(assets)@,
        r matches Err(e) ==> e is Overflow,
{
    let ghost s0 = old(assets)@;
    let t = match find_next_trade(assets) {
        Err(e) => {
            return Err(e);
        },
        Ok(None) => {
            return Ok(true);
        },
        Ok(Some(t)) => t,
    };
    let ghost bi = t.buyer as int;
    let ghost si = t.seller as int;
    proof {
        lemma_settle_chosen(s0, bi, si);
    }
    let buyer_pair = assets[t.buyer];
    let seller_pair = assets[t.seller];
    let ba2 = match buyer_pair.1.a.add(t.amount_a) {
        None => {
            return Err(MarketError::Overflow);
        },
        Some(x) => x,
    };
    let sa2 = match seller_pair.1.a.sub(t.amount_a) {
        None => {
            return Err(MarketError::Overflow);
        },
        Some(x) => x,
    };
    let bb2 = match buyer_pair.1.b.sub(t.amount_b) {
        None => {
            return Err(MarketError::Overflow);
        },
        Some(x) => x,
    };
    let sb2 = match seller_pair.1.b.add(t.amount_b) {
        None => {
            return Err(MarketError::Overflow);
        },
        Some(x) => x,
    };
    assets[t.buyer] = (buyer_pair.0, Balance { a: ba2, b: bb2 });
    assets[t.seller] = (seller_pair.0, Balance { a: sa2, b: sb2 });
    proof {
        let s1 = assets@;
        assert forall|i: int| 0 <= i < s1.len() implies wf_pair(#[trigger] s1[i]) by {
            assert(wf_pair(s0[i]));
        }
        assert(applied(s0, s1, t));
        assert(exists|tt: Trade| valid_next_trade(s0, tt) && #[trigger] applied(s0, s1, tt));
    }
    Ok(false)
}

/// If the settlement of the chosen pair fits, `settle_ok` holds, and if it
/// does not, `settle_ok` fails: there is only one chosen pair.
proof fn lemma_settle_chosen(s: Seq<(Agent, Balance)>, b: int, a: int)
    requires
        is_chosen_buyer(s, b),
        is_chosen_seller(s, b, a),
    ensures
        settle_fits(s, b, a) ==> settle_ok(s),
        !settle_fits(s, b, a) ==> !settle_ok(s),
{
    if settle_fits(s, b, a) {
        assert forall|i: int, j: int|
            is_chosen_buyer(s, i) && #[trigger] is_chosen_seller(s, i, j) implies settle_fits(
            s,
            i,
            j,
        ) by {
            lemma_chosen_buyer_unique(s, i, b);
            lemma_chosen_seller_unique(s, b, j, a);
        }
    }
}

} // verus!
