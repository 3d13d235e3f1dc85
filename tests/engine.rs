use dex_orderbook::engine::Module;
use dex_orderbook::fixed::{
    checked_div, checked_mul, convert_balance_to_fixed_u128, convert_fixed_u128_to_balance, from_integer,
};
use dex_orderbook::hashing::{create_order_id, create_trading_pair_id};
use dex_orderbook::ledger::Id32;
use dex_orderbook::types::{Error, Event, OrderType};

const ONE: u128 = 1_000_000_000_000_000_000;
const BASE: u32 = 1;
const QUOTE: u32 = 2;
const SPENDING: u32 = 0;
const FUNDS: u128 = 1_000_000_000_000_000_000;

fn fx(n: u128) -> u128 {
    n * ONE
}

fn who(b: u8) -> Id32 {
    [b; 32]
}

fn engine_with_pair() -> (Module, Id32) {
    let mut m = Module::new(SPENDING, 1000);
    for t in 1u8..=9 {
        let a = who(t);
        m.ledger.deposit(SPENDING, &a, FUNDS).unwrap();
        m.ledger.deposit(BASE, &a, FUNDS).unwrap();
        m.ledger.deposit(QUOTE, &a, FUNDS).unwrap();
    }
    let ev = m.register_new_orderbook(&who(1), QUOTE, BASE).unwrap();
    let pair = create_trading_pair_id(QUOTE, BASE);
    assert!(matches!(ev, Event::TradingPairCreated(p) if p == pair));
    (m, pair)
}

#[test]
fn register_creates_empty_book() {
    let (m, pair) = engine_with_pair();
    let ob = m.get_orderbook(&pair);
    assert_eq!(ob.trading_pair, pair);
    assert_eq!(ob.best_bid_price, 0);
    assert_eq!(ob.best_ask_price, 0);
    assert_eq!(ob.base_asset_id, BASE);
    assert_eq!(ob.quote_asset_id, QUOTE);
    assert!(m.get_ask_level(&pair).is_empty());
    assert!(m.get_bid_level(&pair).is_empty());
    assert_eq!(m.ledger.reserved_balance(SPENDING, &who(1)), 1000);
    assert_eq!(m.ledger.free_balance(SPENDING, &who(1)), FUNDS - 1000);
}

#[test]
fn register_errors() {
    let (mut m, _) = engine_with_pair();
    assert_eq!(m.register_new_orderbook(&who(1), 5, 5).unwrap_err(), Error::SameAssetIdsError);
    assert_eq!(m.register_new_orderbook(&who(2), QUOTE, BASE).unwrap_err(), Error::TradingPairIDExists);
    assert_eq!(m.register_new_orderbook(&who(77), 7, 8).unwrap_err(), Error::InsufficientAssetBalance);
    assert_eq!(m.get_all_orderbook().len(), 1);
    m.register_new_orderbook(&who(2), BASE, QUOTE).unwrap();
    assert_eq!(m.get_all_orderbook().len(), 2);
}

#[test]
fn two_bids_at_different_prices() {
    let (mut m, pair) = engine_with_pair();
    let e1 = m.submit_order(&who(1), OrderType::BidLimit, &pair, fx(100), fx(5), 1).unwrap();
    let e2 = m.submit_order(&who(2), OrderType::BidLimit, &pair, fx(110), fx(3), 1).unwrap();
    assert_eq!(e1.len(), 1);
    assert_eq!(e2.len(), 1);
    assert!(matches!(e1[0], Event::NewLimitOrder(..)));
    assert!(matches!(e2[0], Event::NewLimitOrder(..)));
    assert_eq!(m.get_bid_level(&pair), vec![fx(100), fx(110)]);
    let ob = m.get_orderbook(&pair);
    assert_eq!(ob.best_bid_price, 110_000_000_000_000);
    assert_eq!(ob.best_ask_price, 0);
    let levels = m.get_price_level(&pair);
    assert_eq!(levels.len(), 2);
    // On the bid side `next` walks down from the best price.
    assert_eq!(levels[1].next, 100_000_000_000_000);
    assert_eq!(levels[0].prev, 110_000_000_000_000);
    // 100 x 5 reserved in the base asset, as a ledger balance.
    assert_eq!(m.ledger.reserved_balance(BASE, &who(1)), 500_000_000_000_000);
}

#[test]
fn ask_limit_crosses_best_bid() {
    let (mut m, pair) = engine_with_pair();
    m.submit_order(&who(1), OrderType::BidLimit, &pair, fx(100), fx(5), 1).unwrap();
    m.submit_order(&who(2), OrderType::BidLimit, &pair, fx(110), fx(3), 1).unwrap();
    let ev = m.submit_order(&who(3), OrderType::AskLimit, &pair, fx(105), fx(4), 1).unwrap();
    // The bid of 3 at 110 fills completely; the level at 100 is beyond the limit of 105,
    // so the remaining 1 rests as an ask.
    assert_eq!(ev.len(), 2);
    assert!(matches!(ev[0], Event::FulfilledLimitOrder(_, _, OrderType::BidLimit, p, q, t)
        if p == fx(110) && q == fx(3) && t == who(2)));
    assert!(matches!(ev[1], Event::NewLimitOrder(_, _, OrderType::AskLimit, p, q, _) if p == fx(105) && q == fx(1)));
    assert_eq!(m.get_bid_level(&pair), vec![fx(100)]);
    assert_eq!(m.get_ask_level(&pair), vec![fx(105)]);
    let ob = m.get_orderbook(&pair);
    assert_eq!(ob.best_bid_price, 100_000_000_000_000);
    assert_eq!(ob.best_ask_price, 105_000_000_000_000);
    // The seller received 330 of base and gave 3 of quote.
    assert_eq!(m.ledger.free_balance(BASE, &who(3)), FUNDS + 330_000_000_000_000);
    assert_eq!(m.ledger.reserved_balance(QUOTE, &who(3)), 1_000_000_000_000);
}

#[test]
fn ask_limit_partially_fills_a_level() {
    let (mut m, pair) = engine_with_pair();
    m.submit_order(&who(1), OrderType::BidLimit, &pair, fx(100), fx(5), 1).unwrap();
    let ev = m.submit_order(&who(3), OrderType::AskLimit, &pair, fx(100), fx(1), 1).unwrap();
    assert_eq!(ev.len(), 2);
    assert!(matches!(ev[0], Event::PartialFillLimitOrder(_, _, OrderType::BidLimit, _, q, t) if q == fx(1) && t == who(1)));
    assert!(matches!(ev[1], Event::FulfilledLimitOrder(_, _, OrderType::AskLimit, _, q, _) if q == 0));
    let levels = m.get_price_level(&pair);
    assert_eq!(levels.len(), 1);
    assert_eq!(levels[0].orders[0].quantity, 4_000_000_000_000);
}

#[test]
fn market_sell_exhausts_book() {
    let (mut m, pair) = engine_with_pair();
    m.submit_order(&who(1), OrderType::BidLimit, &pair, fx(100), fx(4), 1).unwrap();
    let ev = m.submit_order(&who(4), OrderType::AskMarket, &pair, 0, fx(10), 1).unwrap();
    assert_eq!(ev.len(), 2);
    assert!(matches!(ev[0], Event::FulfilledLimitOrder(_, _, _, _, q, t) if q == fx(4) && t == who(1)));
    assert!(matches!(ev[1], Event::UnfilledMarketOrder(_, _, OrderType::AskMarket, _, q, t) if q == fx(6) && t == who(4)));
    assert!(m.get_bid_level(&pair).is_empty());
    assert_eq!(m.get_orderbook(&pair).best_bid_price, 0);
}

#[test]
fn market_buy_fills_within_budget() {
    let (mut m, pair) = engine_with_pair();
    m.submit_order(&who(1), OrderType::AskLimit, &pair, fx(100), fx(5), 1).unwrap();
    let ev = m.submit_order(&who(2), OrderType::BidMarket, &pair, fx(200), 0, 1).unwrap();
    assert_eq!(ev.len(), 2);
    assert!(matches!(ev[0], Event::PartialFillLimitOrder(_, _, _, _, q, _) if q == fx(2)));
    assert!(matches!(ev[1], Event::FilledMarketOrder(_, _, OrderType::BidMarket, p, _, _) if p == 0));
    assert_eq!(m.get_price_level(&pair)[0].orders[0].quantity, 3_000_000_000_000);
    assert_eq!(m.ledger.free_balance(QUOTE, &who(2)), FUNDS + 2_000_000_000_000);
}

#[test]
fn market_order_on_empty_side_is_unfilled() {
    let (mut m, pair) = engine_with_pair();
    let ev = m.submit_order(&who(2), OrderType::BidMarket, &pair, fx(200), 0, 1).unwrap();
    assert_eq!(ev.len(), 1);
    assert!(matches!(ev[0], Event::UnfilledMarketOrder(_, _, _, p, _, _) if p == fx(200)));
}

#[test]
fn cancel_at_end_of_level() {
    let (mut m, pair) = engine_with_pair();
    m.submit_order(&who(1), OrderType::BidLimit, &pair, fx(90), fx(2), 1).unwrap();
    let ev = m.submit_order(&who(1), OrderType::BidLimit, &pair, fx(100), fx(1), 1).unwrap();
    let id = match ev[0] {
        Event::NewLimitOrder(id, ..) => id,
        _ => panic!("expected a new limit order"),
    };
    assert_eq!(m.ledger.reserved_balance(BASE, &who(1)), 280_000_000_000_000);
    m.cancel_order(&who(1), &id, &pair, fx(100)).unwrap();
    assert_eq!(m.get_bid_level(&pair), vec![fx(90)]);
    assert_eq!(m.get_orderbook(&pair).best_bid_price, 90_000_000_000_000);
    let levels = m.get_price_level(&pair);
    assert_eq!(levels.len(), 1);
    assert_eq!(levels[0].prev, 0);
    assert_eq!(levels[0].next, 0);
    assert_eq!(m.ledger.reserved_balance(BASE, &who(1)), 180_000_000_000_000);
}

#[test]
fn cancel_in_the_middle_relinks_neighbours() {
    let (mut m, pair) = engine_with_pair();
    m.submit_order(&who(1), OrderType::AskLimit, &pair, fx(100), fx(1), 1).unwrap();
    let ev = m.submit_order(&who(1), OrderType::AskLimit, &pair, fx(110), fx(1), 1).unwrap();
    m.submit_order(&who(1), OrderType::AskLimit, &pair, fx(120), fx(1), 1).unwrap();
    let id = match ev[0] {
        Event::NewLimitOrder(id, ..) => id,
        _ => panic!("expected a new limit order"),
    };
    m.cancel_order(&who(1), &id, &pair, fx(110)).unwrap();
    assert_eq!(m.get_ask_level(&pair), vec![fx(100), fx(120)]);
    let levels = m.get_price_level(&pair);
    assert_eq!(levels[0].next, 120_000_000_000_000);
    assert_eq!(levels[1].prev, 100_000_000_000_000);
    assert_eq!(m.get_orderbook(&pair).best_ask_price, 100_000_000_000_000);
}

#[test]
fn cancel_errors() {
    let (mut m, pair) = engine_with_pair();
    let ev = m.submit_order(&who(1), OrderType::BidLimit, &pair, fx(90), fx(2), 1).unwrap();
    let id = match ev[0] {
        Event::NewLimitOrder(id, ..) => id,
        _ => panic!("expected a new limit order"),
    };
    assert_eq!(m.cancel_order(&who(1), &id, &who(99), fx(90)).unwrap_err(), Error::InvalidTradingPair);
    assert_eq!(m.cancel_order(&who(1), &who(42), &pair, fx(90)).unwrap_err(), Error::InvalidOrderID);
    assert_eq!(m.cancel_order(&who(1), &id, &pair, fx(91)).unwrap_err(), Error::InvalidOrderID);
    assert_eq!(m.cancel_order(&who(2), &id, &pair, fx(90)).unwrap_err(), Error::InvalidOrigin);
    assert_eq!(m.get_bid_level(&pair), vec![fx(90)]);
}

#[test]
fn round_trip_returns_balance_to_free() {
    let (mut m, pair) = engine_with_pair();
    let free0 = m.ledger.free_balance(BASE, &who(5));
    let reserved0 = m.ledger.reserved_balance(BASE, &who(5));
    let ev = m.submit_order(&who(5), OrderType::BidLimit, &pair, fx(7), fx(3), 2).unwrap();
    assert!(m.ledger.free_balance(BASE, &who(5)) < free0);
    let id = match ev[0] {
        Event::NewLimitOrder(id, ..) => id,
        _ => panic!("expected a new limit order"),
    };
    m.cancel_order(&who(5), &id, &pair, fx(7)).unwrap();
    assert_eq!(m.ledger.free_balance(BASE, &who(5)), free0);
    assert_eq!(m.ledger.reserved_balance(BASE, &who(5)), reserved0);
    assert!(m.get_bid_level(&pair).is_empty());
}

#[test]
fn market_data_accumulates_in_a_period() {
    let (mut m, pair) = engine_with_pair();
    m.submit_order(&who(1), OrderType::AskLimit, &pair, fx(100), fx(5), 3).unwrap();
    m.submit_order(&who(2), OrderType::AskLimit, &pair, fx(110), fx(3), 3).unwrap();
    let ev = m.submit_order(&who(3), OrderType::BidLimit, &pair, fx(110), fx(8), 3).unwrap();
    assert_eq!(ev.len(), 3);
    let md = m.get_market_info(&pair, 3).unwrap();
    assert_eq!(md.low, 100_000_000_000_000);
    assert_eq!(md.high, 110_000_000_000_000);
    assert_eq!(md.volume, 830_000_000_000_000);
    assert!(m.get_market_info(&pair, 4).is_none());
}

#[test]
fn reads_are_idempotent() {
    let (mut m, pair) = engine_with_pair();
    m.submit_order(&who(1), OrderType::BidLimit, &pair, fx(100), fx(5), 1).unwrap();
    assert_eq!(m.get_orderbook(&pair), m.get_orderbook(&pair));
    assert_eq!(m.get_bid_level(&pair), m.get_bid_level(&pair));
    assert_eq!(m.get_all_orderbook(), m.get_all_orderbook());
}

#[test]
fn submission_errors() {
    let (mut m, pair) = engine_with_pair();
    let nonce = m.nonce;
    assert_eq!(m.submit_order(&who(1), OrderType::BidLimit, &pair, 0, fx(1), 1).unwrap_err(), Error::InvalidPriceOrQuantityLimit);
    assert_eq!(m.submit_order(&who(1), OrderType::AskLimit, &pair, fx(1), 0, 1).unwrap_err(), Error::InvalidPriceOrQuantityLimit);
    assert_eq!(m.submit_order(&who(1), OrderType::BidMarket, &pair, 0, fx(1), 1).unwrap_err(), Error::InvalidBidMarketPrice);
    assert_eq!(m.submit_order(&who(1), OrderType::AskMarket, &pair, fx(1), 0, 1).unwrap_err(), Error::InvalidAskMarketQuantity);
    assert_eq!(m.submit_order(&who(1), OrderType::AskMarket, &who(99), fx(1), fx(1), 1).unwrap_err(), Error::InvalidTradingPair);
    assert_eq!(m.submit_order(&who(1), OrderType::BidLimit, &pair, u128::MAX, u128::MAX, 1).unwrap_err(), Error::InternalErrorU128Balance);
    assert_eq!(m.submit_order(&who(50), OrderType::AskLimit, &pair, fx(1), fx(1), 1).unwrap_err(), Error::InsufficientAssetBalance);
    assert_eq!(m.nonce, nonce);
    m.submit_order(&who(1), OrderType::AskLimit, &pair, fx(1), fx(1), 1).unwrap();
    assert_eq!(m.nonce, nonce + 1);
}

#[test]
fn order_ids_depend_on_nonce() {
    let (mut m, pair) = engine_with_pair();
    let a = m.submit_order(&who(1), OrderType::BidLimit, &pair, fx(1), fx(1), 1).unwrap();
    let b = m.submit_order(&who(1), OrderType::BidLimit, &pair, fx(1), fx(1), 1).unwrap();
    let (ia, ib) = match (a[0], b[0]) {
        (Event::NewLimitOrder(x, ..), Event::NewLimitOrder(y, ..)) => (x, y),
        _ => panic!("expected new limit orders"),
    };
    assert_ne!(ia, ib);
    assert_eq!(ia, create_order_id(&pair, &who(1), fx(1), fx(1), OrderType::BidLimit, 0));
    assert_eq!(m.get_price_level(&pair)[0].orders.len(), 2);
}

#[test]
fn pair_ids_are_ordered_digests() {
    let a = create_trading_pair_id(1, 2);
    assert_eq!(a, create_trading_pair_id(1, 2));
    assert_ne!(a, create_trading_pair_id(2, 1));
    assert_ne!(a, [0u8; 32]);
}

#[test]
fn fixed_point_arithmetic() {
    assert_eq!(checked_mul(fx(2), fx(3)), Some(fx(6)));
    assert_eq!(checked_mul(fx(100), fx(5)), Some(fx(500)));
    assert_eq!(checked_mul(u128::MAX, fx(2)), None);
    assert_eq!(checked_div(fx(6), fx(4)), Some(1_500_000_000_000_000_000));
    assert_eq!(checked_div(fx(1), 0), None);
    assert_eq!(checked_div(fx(1), fx(3)), Some(333_333_333_333_333_333));
    assert_eq!(from_integer(7), fx(7));
    assert_eq!(from_integer(u128::MAX), u128::MAX);
}

#[test]
fn scale_conversions() {
    assert_eq!(convert_balance_to_fixed_u128(5), 5_000_000);
    assert_eq!(convert_balance_to_fixed_u128(1_000_000_000_000), ONE);
    assert_eq!(convert_fixed_u128_to_balance(ONE), 1_000_000_000_000);
    assert_eq!(convert_fixed_u128_to_balance(1_999_999), 1);
}

fn holding(m: &Module, asset: u32, t: u8) -> u128 {
    m.ledger.free_balance(asset, &who(t)) + m.ledger.reserved_balance(asset, &who(t))
}

#[test]
fn fills_conserve_each_asset() {
    let (mut m, pair) = engine_with_pair();
    m.submit_order(&who(1), OrderType::AskLimit, &pair, fx(100), fx(2), 1).unwrap();
    m.submit_order(&who(2), OrderType::AskLimit, &pair, fx(101), fx(2), 1).unwrap();
    let before: Vec<u128> = [BASE, QUOTE].iter().map(|a| (1u8..=3).map(|t| holding(&m, *a, t)).sum()).collect();
    let ev = m.submit_order(&who(3), OrderType::BidLimit, &pair, fx(101), fx(3), 1).unwrap();
    assert_eq!(ev.len(), 3);
    let after: Vec<u128> = [BASE, QUOTE].iter().map(|a| (1u8..=3).map(|t| holding(&m, *a, t)).sum()).collect();
    assert_eq!(before, after);
    // The taker gained 3 of quote, which the makers lost.
    assert_eq!(holding(&m, QUOTE, 3), FUNDS + 3_000_000_000_000);
    assert_eq!(holding(&m, QUOTE, 1) + holding(&m, QUOTE, 2), 2 * FUNDS - 3_000_000_000_000);
}

#[test]
fn invariants_hold_after_a_sequence() {
    let (mut m, pair) = engine_with_pair();
    let prices = [105u128, 95, 120, 100, 90, 130, 101, 99];
    for (i, p) in prices.iter().enumerate() {
        let t = OrderType::BidLimit;
        let trader = who((i % 9) as u8 + 1);
        if *p >= 100 {
            m.submit_order(&trader, OrderType::AskLimit, &pair, fx(*p), fx(2), 5).unwrap();
        } else {
            m.submit_order(&trader, t, &pair, fx(*p), fx(2), 5).unwrap();
        }
    }
    m.submit_order(&who(9), OrderType::BidLimit, &pair, fx(102), fx(3), 5).unwrap();
    m.submit_order(&who(8), OrderType::AskMarket, &pair, 0, fx(1), 5).unwrap();
    let asks = m.get_ask_level(&pair);
    let bids = m.get_bid_level(&pair);
    assert!(asks.windows(2).all(|w| w[0] < w[1]));
    assert!(bids.windows(2).all(|w| w[0] < w[1]));
    let ob = m.get_orderbook(&pair);
    assert_eq!(ob.best_ask_price * 1_000_000, asks[0]);
    assert_eq!(ob.best_bid_price * 1_000_000, *bids.last().unwrap());
    assert!(ob.best_bid_price < ob.best_ask_price);
    let levels = m.get_price_level(&pair);
    assert_eq!(levels.len(), asks.len() + bids.len());
    assert!(levels.iter().all(|l| !l.orders.is_empty()));
}

#[test]
fn price_then_time_priority() {
    let (mut m, pair) = engine_with_pair();
    m.submit_order(&who(1), OrderType::AskLimit, &pair, fx(101), fx(1), 1).unwrap();
    m.submit_order(&who(2), OrderType::AskLimit, &pair, fx(100), fx(1), 1).unwrap();
    m.submit_order(&who(3), OrderType::AskLimit, &pair, fx(100), fx(1), 1).unwrap();
    let ev = m.submit_order(&who(4), OrderType::BidLimit, &pair, fx(101), fx(2), 1).unwrap();
    assert_eq!(ev.len(), 3);
    // The best price first, and at one price the oldest order first.
    assert!(matches!(ev[0], Event::FulfilledLimitOrder(_, _, _, p, _, t) if p == fx(100) && t == who(2)));
    assert!(matches!(ev[1], Event::FulfilledLimitOrder(_, _, _, p, _, t) if p == fx(100) && t == who(3)));
    assert!(matches!(ev[2], Event::FulfilledLimitOrder(_, _, OrderType::BidLimit, _, q, t) if q == 0 && t == who(4)));
    assert_eq!(m.get_ask_level(&pair), vec![fx(101)]);
    // The taker paid the makers' price, 200, not its limit, and nothing of
    // what it reserved at its limit stays reserved.
    assert_eq!(m.ledger.free_balance(QUOTE, &who(4)), FUNDS + 2_000_000_000_000);
    assert_eq!(m.ledger.reserved_balance(BASE, &who(4)), 0);
    assert_eq!(m.ledger.free_balance(BASE, &who(4)), FUNDS - 200_000_000_000_000);
    assert_eq!(m.ledger.free_balance(BASE, &who(2)), FUNDS + 100_000_000_000_000);
}

#[test]
fn failed_settlement_changes_nothing() {
    let (mut m, pair) = engine_with_pair();
    let rich = who(20);
    m.ledger.deposit(QUOTE, &rich, FUNDS).unwrap();
    m.ledger.deposit(BASE, &rich, u128::MAX - 10).unwrap();
    m.submit_order(&rich, OrderType::AskLimit, &pair, fx(1), fx(1), 1).unwrap();
    let nonce = m.nonce;
    let free = m.ledger.free_balance(BASE, &who(2));
    // Paying the seller 1 of base would overflow its holding.
    let err = m.submit_order(&who(2), OrderType::BidLimit, &pair, fx(1), fx(1), 1).unwrap_err();
    assert_eq!(err, Error::ErrorWhileTransferingAsset);
    assert_eq!(m.nonce, nonce);
    assert_eq!(m.ledger.free_balance(BASE, &who(2)), free);
    assert_eq!(m.ledger.reserved_balance(BASE, &who(2)), 0);
    assert_eq!(m.get_ask_level(&pair), vec![fx(1)]);
    assert!(m.get_bid_level(&pair).is_empty());
    assert!(m.get_market_info(&pair, 1).is_none());
}

#[test]
fn bid_filled_below_its_limit_keeps_only_the_residual_reserved() {
    let (mut m, pair) = engine_with_pair();
    m.submit_order(&who(1), OrderType::AskLimit, &pair, fx(100), fx(1), 1).unwrap();
    let ev = m.submit_order(&who(2), OrderType::BidLimit, &pair, fx(105), fx(3), 1).unwrap();
    assert_eq!(ev.len(), 2);
    let id = match ev[1] {
        Event::NewLimitOrder(id, _, _, _, q, _) => {
            assert_eq!(q, fx(2));
            id
        },
        _ => panic!("expected the residual to rest"),
    };
    // 105 x 2 stays reserved for the residual; the fill cost 100.
    assert_eq!(m.ledger.reserved_balance(BASE, &who(2)), 210_000_000_000_000);
    assert_eq!(m.ledger.free_balance(BASE, &who(2)), FUNDS - 310_000_000_000_000);
    m.cancel_order(&who(2), &id, &pair, fx(105)).unwrap();
    assert_eq!(m.ledger.reserved_balance(BASE, &who(2)), 0);
    assert_eq!(m.ledger.free_balance(BASE, &who(2)), FUNDS - 100_000_000_000_000);
}
