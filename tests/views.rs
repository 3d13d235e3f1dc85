use std::sync::Arc;

use dex_orderbook::engine::{basic_order_checks, check_order, Module};
use dex_orderbook::hashing::create_trading_pair_id;
use dex_orderbook::ledger::Ledger;
use dex_orderbook::rpc::DexStorage;
use dex_orderbook::types::{
    Error, Event, LinkedPriceLevel, Order, OrderType, OrderTypeRPC, Orderbook,
};

const ONE: u128 = 1_000_000_000_000_000_000;

#[test]
fn request_shape_checks() {
    assert_eq!(basic_order_checks(OrderType::BidLimit, ONE, ONE), Ok(()));
    assert_eq!(basic_order_checks(OrderType::AskLimit, 0, ONE), Err(Error::InvalidPriceOrQuantityLimit));
    assert_eq!(basic_order_checks(OrderType::BidMarket, 0, 0), Err(Error::InvalidBidMarketPrice));
    assert_eq!(basic_order_checks(OrderType::BidMarket, ONE, 0), Ok(()));
    assert_eq!(basic_order_checks(OrderType::AskMarket, 0, 0), Err(Error::InvalidAskMarketQuantity));
    assert_eq!(basic_order_checks(OrderType::AskMarket, 0, ONE), Ok(()));
}

#[test]
fn funds_check_reserves_for_limit_orders_only() {
    let mut l = Ledger::new();
    let t = [3u8; 32];
    l.deposit(1, &t, 1_000_000_000_000_000).unwrap();
    let ob = Orderbook::new(1, 2, [9u8; 32]);
    // 10 x 20 of the base asset is 200 engine units, 200 * 10^12 as a balance.
    assert_eq!(check_order(&mut l, &ob, &t, OrderType::BidLimit, 10 * ONE, 20 * ONE), Ok(()));
    assert_eq!(l.reserved_balance(1, &t), 200_000_000_000_000);
    assert_eq!(l.free_balance(1, &t), 800_000_000_000_000);
    assert_eq!(check_order(&mut l, &ob, &t, OrderType::BidMarket, 100 * ONE, 0), Ok(()));
    assert_eq!(l.reserved_balance(1, &t), 200_000_000_000_000);
    assert_eq!(
        check_order(&mut l, &ob, &t, OrderType::BidLimit, 1000 * ONE, ONE),
        Err(Error::InsufficientAssetBalance)
    );
    assert_eq!(check_order(&mut l, &ob, &t, OrderType::AskLimit, ONE, ONE), Err(Error::InsufficientAssetBalance));
}

#[test]
fn ledger_transfers_and_reservations() {
    let mut l = Ledger::new();
    let a = [1u8; 32];
    let b = [2u8; 32];
    l.deposit(7, &a, 100).unwrap();
    assert_eq!(l.make_transfer(7, &a, &b, 150), Err(()));
    assert_eq!(l.make_transfer(7, &a, &b, 40), Ok(()));
    assert_eq!(l.free_balance(7, &a), 60);
    assert_eq!(l.free_balance(7, &b), 40);
    assert_eq!(l.reserve(7, &a, 61), Err(()));
    assert_eq!(l.reserve(7, &a, 50), Ok(()));
    l.unreserve(7, &a, 80);
    assert_eq!(l.free_balance(7, &a), 60);
    assert_eq!(l.reserved_balance(7, &a), 0);
    assert_eq!(l.deposit(7, &b, u128::MAX), Err(()));
}

#[test]
fn defaults_and_projections() {
    let ob = Orderbook::default();
    assert_eq!(ob.best_bid_price, 0);
    assert_eq!(ob.trading_pair, [0u8; 32]);
    let level = LinkedPriceLevel::default();
    assert!(level.orders.is_empty());
    assert!(level.next.is_none() && level.prev.is_none());
    assert_eq!(OrderTypeRPC::from_order_type(OrderType::AskMarket), OrderTypeRPC::AskMarket);
    let o = Order {
        id: [1u8; 32],
        trading_pair: [2u8; 32],
        trader: [3u8; 32],
        price: 5 * ONE,
        quantity: 2_500_000,
        order_type: OrderType::AskLimit,
    };
    let r = o.convert();
    assert_eq!(r.price, 5_000_000_000_000);
    assert_eq!(r.quantity, 2);
    assert_eq!(Order::convert_fixed_u128_to_balance(ONE), Some(1_000_000_000_000));
    assert_eq!(Module::convert_balance_to_fixed_u128(3), Some(3_000_000));
    assert_eq!(Module::convert_fixed_u128_to_balance(3_000_000), Some(3));
    assert!(matches!(Module::emit_partial_fill(&o, 7), Event::PartialFillLimitOrder(_, _, _, _, 7, _)));
    assert!(matches!(Module::emit_complete_fill(&o, 7), Event::FulfilledLimitOrder(_, _, _, _, 7, _)));
    assert_eq!(Module::u32_to_blocknum(12), 12);
    assert_eq!(Module::u32_to_asset_id(13), 13);
}

#[test]
fn query_surface_reads_the_shared_engine() {
    let mut m = Module::new(0, 0);
    let t = [4u8; 32];
    m.ledger.deposit(1, &t, 1_000_000_000_000_000_000).unwrap();
    m.register_new_orderbook(&t, 2, 1).unwrap();
    let pair = create_trading_pair_id(2, 1);
    m.submit_order(&t, OrderType::BidLimit, &pair, 3 * ONE, ONE, 1).unwrap();
    let storage = DexStorage::new(Arc::new(m));
    assert_eq!(storage.get_bid_level(&pair), vec![3 * ONE]);
    assert!(storage.get_ask_level(&pair).is_empty());
    assert_eq!(storage.get_orderbook(&pair).best_bid_price, 3_000_000_000_000);
    assert_eq!(storage.get_all_orderbook().len(), 1);
    assert_eq!(storage.get_price_level(&pair).len(), 1);
    assert!(storage.get_market_info(&pair, 1).is_none());
    assert_eq!(storage.get_orderbook(&[8u8; 32]).best_bid_price, 0);
}
