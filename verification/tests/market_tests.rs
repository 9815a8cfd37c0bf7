use double_auction::market::Agent;
use double_auction::market::Balance;
use double_auction::market::MarketError;
use double_auction::market::Trade;
use double_auction::market::execute_one_trade;
use double_auction::market::find_next_trade;
use double_auction::market::generate_orders;
use double_auction::driver::execute_all_trades;
use double_auction::rat::Ratio;

use rand::Rng;
use rand::SeedableRng;
use rand::rngs::StdRng;

fn r(num: u64, den: u64) -> Ratio {
    Ratio::new(num, den).unwrap()
}

fn agent(ca: Ratio, cb: Ratio) -> Agent {
    Agent::new(r(0, 1), r(0, 1), ca, cb).unwrap()
}

#[test]
fn test_indifference_price() {
    let agent = Agent::new(r(10, 1), r(10, 1), r(1, 1), r(5, 1)).unwrap();
    assert_eq!(agent.indifference_price_of_a_in_b(), r(1, 5));

    let price_a_in_b = agent.indifference_price_of_a_in_b();
    let amount_a_bought = r(1, 1);

    let consumption_a = agent.production_a.add(amount_a_bought).unwrap();
    let consumption_b = agent
        .production_b
        .sub(amount_a_bought.mul(price_a_in_b).unwrap())
        .unwrap();

    assert_eq!(
        agent.utility(agent.production_a, agent.production_b).unwrap(),
        agent.utility(consumption_a, consumption_b).unwrap(),
    );
}

#[test]
fn test_find_next_trade() {
    let mut assets = vec![
        (agent(r(1, 1), r(5, 1)), Balance { a: r(1, 1), b: r(2, 1) }),
        (agent(r(8, 1), r(1, 1)), Balance { a: r(3, 1), b: r(4, 1) }),
    ];

    // clearing price (8 + 1/5) / 2 = 41/10; the buyer can afford
    // 4 / (41/10) = 40/41 < 1, so its whole B holding of 4 is spent
    assert_eq!(
        find_next_trade(&assets).unwrap().unwrap(),
        Trade { buyer: 1, seller: 0, amount_a: r(40, 41), amount_b: r(4, 1) }
    );

    assert_eq!(execute_one_trade(&mut assets).unwrap(), false);

    // the buyer is out of B afterwards, so the market is settled
    assert_eq!(assets[1].1.b, r(0, 1));
    assert_eq!(assets[0].1.b, r(6, 1));
    assert_eq!(assets[0].1.a, r(1, 41));
    assert!(find_next_trade(&assets).unwrap().is_none());
}

#[test]
fn zero_coefficient_rejected() {
    assert!(Agent::new(r(1, 1), r(1, 1), r(0, 1), r(5, 1)).is_none());
    assert!(Agent::new(r(1, 1), r(1, 1), r(1, 1), r(0, 1)).is_none());
    assert!(Agent::new(r(1, 1), r(1, 1), r(1, 1), r(5, 1)).is_some());
}

#[test]
fn order_generation_rules() {
    let a = agent(r(1, 1), r(4, 1));
    let (bid, ask) = generate_orders(7, &a, &Balance { a: r(0, 1), b: r(2, 1) }).unwrap();
    let bid = bid.unwrap();
    assert!(ask.is_none());
    assert_eq!(bid.agent_id, 7);
    // bid amount is b / price = 2 / (1/4) = 8
    assert_eq!(bid.amount_a, r(8, 1));
    assert_eq!(bid.price_per_a_in_b, r(1, 4));

    let (bid2, ask2) = generate_orders(3, &a, &Balance { a: r(5, 1), b: r(0, 1) }).unwrap();
    assert!(bid2.is_none());
    let ask2 = ask2.unwrap();
    assert_eq!(ask2.amount_a, r(5, 1));
    assert_eq!(ask2.price_per_a_in_b, r(1, 4));
}

#[test]
fn overflow_is_reported() {
    // the bid amount b / price has denominator u64::MAX^2 and cannot be
    // represented, so the matcher reports overflow instead of trading
    let pricey = agent(r(u64::MAX, 1), r(1, 1));
    let assets = vec![
        (pricey, Balance { a: r(0, 1), b: r(1, u64::MAX) }),
        (agent(r(1, 1), r(2, 1)), Balance { a: r(1, 1), b: r(0, 1) }),
    ];
    assert!(matches!(find_next_trade(&assets), Err(MarketError::Overflow)));
}

#[test]
fn equal_price_tie_can_fail_terminal_partition() {
    // two agents at the same indifference price never trade (no strict
    // surplus); sorted stably, holding-both before out-of-A fails the
    // expected prefix/middle/suffix shape and is reported
    let mut assets = vec![
        (agent(r(1, 1), r(2, 1)), Balance { a: r(1, 1), b: r(1, 1) }),
        (agent(r(1, 1), r(2, 1)), Balance { a: r(0, 1), b: r(3, 1) }),
    ];
    match execute_all_trades(&mut assets) {
        Err(MarketError::TerminalInconsistency(rem)) => assert_eq!(rem.len(), 1),
        other => panic!("expected a terminal inconsistency, got {:?}", other.is_ok()),
    }
}

#[test]
fn two_agent_market_clears() {
    let mut assets = vec![
        (agent(r(1, 1), r(5, 1)), Balance { a: r(1, 1), b: r(2, 1) }),
        (agent(r(8, 1), r(1, 1)), Balance { a: r(3, 1), b: r(4, 1) }),
    ];
    assert!(execute_all_trades(&mut assets).is_ok());
    assert!(find_next_trade(&assets).unwrap().is_none());
}

#[test]
fn random_balances_clear_to_partition() {
    let mut rng = StdRng::seed_from_u64(11);
    // distinct prices (distinct prime numerators), random small balances
    let primes: [u64; 6] = [2, 3, 5, 7, 11, 13];
    for round in 0..8u64 {
        let mut assets: Vec<(Agent, Balance)> = Vec::new();
        for p in primes.iter() {
            let a_units: u64 = rng.gen_range(0..5);
            let b_units: u64 = rng.gen_range(0..5);
            assets.push((
                agent(r(*p, 1), r(3, 1)),
                Balance { a: r(a_units, 1), b: r(b_units, 1) },
            ));
        }
        match execute_all_trades(&mut assets) {
            Ok(()) => {}
            Err(MarketError::Overflow) => {}
            Err(MarketError::TerminalInconsistency(_)) => {
                panic!("partition failed on round {}", round)
            }
        }
    }
}

#[test]
fn utility_is_linear() {
    let a = agent(r(3, 2), r(7, 3));
    // 3/2 * 4 + 7/3 * 6 = 6 + 14 = 20
    assert_eq!(a.utility(r(4, 1), r(6, 1)).unwrap(), r(20, 1));
}
