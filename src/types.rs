//! Orders, price levels, order books, market statistics, events and errors,
//! with the integer projections the read views return.
use vstd::prelude::*;

verus! {

use crate::fixed::{balance_of_fixed, convert_fixed_u128_to_balance};
use crate::ledger::Id32;

/// Asset identifiers of the ledger.
pub type AssetId = u32;

/// The host's period identifier (a block height).
pub type BlockNumber = u32;

/// The four kinds of order.
#[derive(Clone, Copy, PartialEq, Eq, Debug, Structural)]
pub enum OrderType {
    BidLimit,
    BidMarket,
    AskLimit,
    AskMarket,
}

impl OrderType {
    pub open spec fn is_bid_spec(&self) -> bool {
        *self is BidLimit || *self is BidMarket
    }

    pub open spec fn is_limit_spec(&self) -> bool {
        *self is BidLimit || *self is AskLimit
    }

    /// Whether the order buys the quote asset.
    #[verifier::when_used_as_spec(is_bid_spec)]
    pub fn is_bid(&self) -> (r: bool)
        ensures
            r == self.is_bid_spec(),
    {
        match self {
            OrderType::BidLimit | OrderType::BidMarket => true,
            _ => false,
        }
    }

    /// Whether the order rests in the book when not filled.
    #[verifier::when_used_as_spec(is_limit_spec)]
    pub fn is_limit(&self) -> (r: bool)
        ensures
            r == self.is_limit_spec(),
    {
        match self {
            OrderType::BidLimit | OrderType::AskLimit => true,
            _ => false,
        }
    }

    /// Index of the variant in the binary encoding.
    pub open spec fn tag_spec(&self) -> u8 {
        match *self {
            OrderType::BidLimit => 0,
            OrderType::BidMarket => 1,
            OrderType::AskLimit => 2,
            OrderType::AskMarket => 3,
        }
    }

    #[verifier::when_used_as_spec(tag_spec)]
    pub fn tag(&self) -> (r: u8)
        ensures
            r == self.tag_spec(),
    {
        match self {
            OrderType::BidLimit => 0,
            OrderType::BidMarket => 1,
            OrderType::AskLimit => 2,
            OrderType::AskMarket => 3,
        }
    }
}

/// The order kinds as the read views name them.
#[derive(Clone, Copy, PartialEq, Eq, Debug, Structural)]
pub enum OrderTypeRPC {
    BidLimit,
    BidMarket,
    AskLimit,
    AskMarket,
}

impl OrderTypeRPC {
    pub fn from_order_type(t: OrderType) -> (r: OrderTypeRPC)
        ensures
            t is BidLimit <==> r is BidLimit,
            t is BidMarket <==> r is BidMarket,
            t is AskLimit <==> r is AskLimit,
            t is AskMarket <==> r is AskMarket,
    {
        match t {
            OrderType::BidLimit => OrderTypeRPC::BidLimit,
            OrderType::BidMarket => OrderTypeRPC::BidMarket,
            OrderType::AskLimit => OrderTypeRPC::AskLimit,
            OrderType::AskMarket => OrderTypeRPC::AskMarket,
        }
    }
}

/// An order. Amounts are fixed-point inner values. For a bid market order
/// `price` carries the remaining budget in the base asset.
#[derive(Clone, Copy, Debug)]
pub struct Order {
    pub id: Id32,
    pub trading_pair: Id32,
    pub trader: Id32,
    pub price: u128,
    pub quantity: u128,
    pub order_type: OrderType,
}

/// An order as the read views show it: amounts divided by `RPC_SCALE`.
#[derive(Clone, Copy, Debug)]
pub struct Order4RPC {
    pub id: Id32,
    pub trading_pair: Id32,
    pub trader: Id32,
    pub price: u128,
    pub quantity: u128,
    pub order_type: OrderType,
}

impl Order {
    /// The ledger balance standing for an engine amount.
    pub fn convert_fixed_u128_to_balance(x: u128) -> (r: Option<u128>)
        ensures
            r == Some((balance_of_fixed(x as int)) as u128),
    {
        Some(convert_fixed_u128_to_balance(x))
    }

    /// The read-view projection of the order.
    pub fn convert(&self) -> (r: Order4RPC)
        ensures
            order_rpc_of(r, *self),
    {
        Order4RPC {
            id: self.id,
            trading_pair: self.trading_pair,
            trader: self.trader,
            price: convert_fixed_u128_to_balance(self.price),
            quantity: convert_fixed_u128_to_balance(self.quantity),
            order_type: self.order_type,
        }
    }
}

/// The resting orders at one price, oldest first, with the neighbouring
/// active prices of the same side. On the ask side `prev` is the next lower
/// price and `next` the next higher; on the bid side `prev` is the next
/// higher price and `next` the next lower, so that `next` always walks away
/// from the best price.
#[derive(Debug)]
pub struct LinkedPriceLevel {
    pub next: Option<u128>,
    pub prev: Option<u128>,
    pub orders: Vec<Order>,
}

/// A price level as the read views show it; an absent neighbour shows as 0.
#[derive(Debug)]
pub struct LinkedPriceLevelRpc {
    pub next: u128,
    pub prev: u128,
    pub orders: Vec<Order4RPC>,
}

/// `r` is the read-view projection of `s`.
pub open spec fn order_rpc_of(r: Order4RPC, s: Order) -> bool {
    &&& r.id == s.id
    &&& r.trading_pair == s.trading_pair
    &&& r.trader == s.trader
    &&& r.price as int == balance_of_fixed(s.price as int)
    &&& r.quantity as int == balance_of_fixed(s.quantity as int)
    &&& r.order_type == s.order_type
}

/// `r` is the read-view projection of `l`.
pub open spec fn level_rpc_of(r: LinkedPriceLevelRpc, l: LinkedPriceLevel) -> bool {
    &&& r.next as int == opt_balance(l.next)
    &&& r.prev as int == opt_balance(l.prev)
    &&& r.orders.len() == l.orders.len()
    &&& forall|i: int| 0 <= i < l.orders.len() ==> order_rpc_of(#[trigger] r.orders@[i], l.orders@[i])
}

/// `r` is the read-view projection of `ob`.
pub open spec fn orderbook_rpc_of(r: OrderbookRpc, ob: Orderbook) -> bool {
    &&& r.trading_pair == ob.trading_pair
    &&& r.base_asset_id == ob.base_asset_id
    &&& r.quote_asset_id == ob.quote_asset_id
    &&& r.best_bid_price as int == balance_of_fixed(ob.best_bid_price as int)
    &&& r.best_ask_price as int == balance_of_fixed(ob.best_ask_price as int)
}

/// `r` is the read-view projection of `md`.
pub open spec fn market_rpc_of(r: MarketDataRpc, md: MarketData) -> bool {
    &&& r.low as int == balance_of_fixed(md.low as int)
    &&& r.high as int == balance_of_fixed(md.high as int)
    &&& r.volume as int == balance_of_fixed(md.volume as int)
}

pub open spec fn opt_balance(p: Option<u128>) -> int {
    match p {
        Some(v) => balance_of_fixed(v as int),
        None => 0,
    }
}

fn convert_opt(p: Option<u128>) -> (r: u128)
    ensures
        r as int == opt_balance(p),
{
    match p {
        Some(v) => convert_fixed_u128_to_balance(v),
        None => 0,
    }
}

impl LinkedPriceLevel {
    /// The read-view projection of the level.
    pub fn covert(&self) -> (r: LinkedPriceLevelRpc)
        ensures
            level_rpc_of(r, *self),
    {
        let mut orders: Vec<Order4RPC> = Vec::new();
        let mut i: usize = 0;
        while i < self.orders.len()
            invariant
                0 <= i <= self.orders.len(),
                orders.len() == i,
                forall|j: int| 0 <= j < i ==> order_rpc_of(#[trigger] orders@[j], self.orders@[j]),
            decreases self.orders.len() - i,
        {
            orders.push(self.orders[i].convert());
            i = i + 1;
        }
        LinkedPriceLevelRpc { next: convert_opt(self.next), prev: convert_opt(self.prev), orders }
    }

    /// A level without orders or neighbours.
    pub fn empty() -> (r: LinkedPriceLevel)
        ensures
            r.next is None,
            r.prev is None,
            r.orders@.len() == 0,
    {
        LinkedPriceLevel { next: None, prev: None, orders: Vec::new() }
    }
}

impl Default for LinkedPriceLevel {
    fn default() -> (r: LinkedPriceLevel)
        ensures
            r.next is None,
            r.prev is None,
            r.orders@.len() == 0,
    {
        LinkedPriceLevel::empty()
    }
}

/// The record of a trading pair: its assets and the best prices of both sides
/// (0 when a side is empty).
#[derive(Clone, Copy, Debug)]
pub struct Orderbook {
    pub trading_pair: Id32,
    pub base_asset_id: AssetId,
    pub quote_asset_id: AssetId,
    pub best_bid_price: u128,
    pub best_ask_price: u128,
}

impl Orderbook {
    /// A new order book with both sides empty.
    pub fn new(base_asset_id: AssetId, quote_asset_id: AssetId, trading_pair: Id32) -> (r: Orderbook)
        ensures
            r.trading_pair == trading_pair,
            r.base_asset_id == base_asset_id,
            r.quote_asset_id == quote_asset_id,
            r.best_bid_price == 0,
            r.best_ask_price == 0,
    {
        Orderbook { trading_pair, base_asset_id, quote_asset_id, best_bid_price: 0, best_ask_price: 0 }
    }

    /// The read-view projection of the order book.
    pub fn convert(&self) -> (r: OrderbookRpc)
        ensures
            orderbook_rpc_of(r, *self),
    {
        OrderbookRpc {
            trading_pair: self.trading_pair,
            base_asset_id: self.base_asset_id,
            quote_asset_id: self.quote_asset_id,
            best_bid_price: convert_fixed_u128_to_balance(self.best_bid_price),
            best_ask_price: convert_fixed_u128_to_balance(self.best_ask_price),
        }
    }
}

impl Default for Orderbook {
    fn default() -> (r: Orderbook)
        ensures
            r.trading_pair@ == seq![0u8; 32],
            r.base_asset_id == 0,
            r.quote_asset_id == 0,
            r.best_bid_price == 0,
            r.best_ask_price == 0,
    {
        let r = Orderbook::new(0, 0, [0u8; 32]);
        assert(r.trading_pair@ =~= seq![0u8; 32]);
        r
    }
}

/// An order book as the read views show it.
#[derive(Clone, Copy, PartialEq, Eq, Debug)]
pub struct OrderbookRpc {
    pub trading_pair: Id32,
    pub base_asset_id: u32,
    pub quote_asset_id: u32,
    pub best_bid_price: u128,
    pub best_ask_price: u128,
}

/// Trading statistics of a pair over one period.
#[derive(Clone, Copy, PartialEq, Eq, Debug, Structural)]
pub struct MarketData {
    /// Lowest price traded.
    pub low: u128,
    /// Highest price traded.
    pub high: u128,
    /// Total traded amount in the base asset.
    pub volume: u128,
}

impl MarketData {
    /// The read-view projection of the statistics.
    pub fn convert(&self) -> (r: MarketDataRpc)
        ensures
            market_rpc_of(r, *self),
    {
        MarketDataRpc {
            low: convert_fixed_u128_to_balance(self.low),
            high: convert_fixed_u128_to_balance(self.high),
            volume: convert_fixed_u128_to_balance(self.volume),
        }
    }
}

/// Trading statistics as the read views show them.
#[derive(Clone, Copy, PartialEq, Eq, Debug, Structural)]
pub struct MarketDataRpc {
    pub low: u128,
    pub high: u128,
    pub volume: u128,
}

/// What the engine reports. Order events carry the order id, the pair, the
/// order type, the price and the quantity, and the trader.
#[derive(Clone, Copy, Debug)]
pub enum Event {
    TradingPairCreated(Id32),
    NewLimitOrder(Id32, Id32, OrderType, u128, u128, Id32),
    UnfilledMarketOrder(Id32, Id32, OrderType, u128, u128, Id32),
    FilledMarketOrder(Id32, Id32, OrderType, u128, u128, Id32),
    FulfilledLimitOrder(Id32, Id32, OrderType, u128, u128, Id32),
    PartialFillLimitOrder(Id32, Id32, OrderType, u128, u128, Id32),
}

/// Why an operation was refused.
#[derive(Clone, Copy, PartialEq, Eq, Debug, Structural)]
pub enum Error {
    SameAssetIdsError,
    TradingPairIDExists,
    InsufficientAssetBalance,
    InvalidPriceOrQuantityLimit,
    InvalidBidMarketPrice,
    InvalidAskMarketQuantity,
    InvalidTradingPair,
    InternalErrorU128Balance,
    NoElementFound,
    MulUnderflowOrOverflow,
    DivUnderflowOrOverflow,
    AddUnderflowOrOverflow,
    SubUnderflowOrOverflow,
    ErrorWhileTransferingAsset,
    ReserveAmountFailed,
    InvalidOrigin,
    CancelPriceDoesntMatch,
    TradingPairMismatch,
    InvalidOrderID,
}

} // verus!
