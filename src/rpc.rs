//! The query surface: read views of an engine shared behind an `Arc`.
use std::sync::Arc;
use vstd::prelude::*;

verus! {

use crate::engine::{levels_rpc_of, Module};
use crate::ledger::Id32;
use crate::types::{market_rpc_of, orderbook_rpc_of, LinkedPriceLevelRpc, MarketDataRpc, OrderbookRpc};

/// Answers read queries on an engine.
pub struct DexStorage {
    client: Arc<Module>,
}

impl DexStorage {
    /// The engine queried.
    pub closed spec fn engine(&self) -> Module {
        *self.client
    }

    /// A query surface over `client`.
    pub fn new(client: Arc<Module>) -> (r: DexStorage)
        ensures
            r.engine() == *client,
    {
        DexStorage { client }
    }

    /// See `Module::get_ask_level`.
    pub fn get_ask_level(&self, trading_pair: &Id32) -> (r: Vec<u128>)
        requires
            self.engine().wf(),
        ensures
            self.engine().has_pair(trading_pair@) ==> r@ == self.engine().book_of(trading_pair@).asks.prices@,
            !self.engine().has_pair(trading_pair@) ==> r@.len() == 0,
    {
        self.client.get_ask_level(trading_pair)
    }

    /// See `Module::get_bid_level`.
    pub fn get_bid_level(&self, trading_pair: &Id32) -> (r: Vec<u128>)
        requires
            self.engine().wf(),
        ensures
            self.engine().has_pair(trading_pair@) ==> r@ == self.engine().book_of(trading_pair@).bids.prices@,
            !self.engine().has_pair(trading_pair@) ==> r@.len() == 0,
    {
        self.client.get_bid_level(trading_pair)
    }

    /// See `Module::get_price_level`.
    pub fn get_price_level(&self, trading_pair: &Id32) -> (r: Vec<LinkedPriceLevelRpc>)
        requires
            self.engine().wf(),
        ensures
            self.engine().has_pair(trading_pair@) ==> levels_rpc_of(r@, self.engine().book_of(trading_pair@)),
            !self.engine().has_pair(trading_pair@) ==> r@.len() == 0,
    {
        self.client.get_price_level(trading_pair)
    }

    /// See `Module::get_orderbook`.
    pub fn get_orderbook(&self, trading_pair: &Id32) -> (r: OrderbookRpc)
        requires
            self.engine().wf(),
        ensures
            self.engine().has_pair(trading_pair@) ==> orderbook_rpc_of(r, self.engine().book_of(trading_pair@).orderbook),
            !self.engine().has_pair(trading_pair@) ==> r.trading_pair@ == seq![0u8; 32] && r.base_asset_id == 0
                && r.quote_asset_id == 0 && r.best_bid_price == 0 && r.best_ask_price == 0,
    {
        self.client.get_orderbook(trading_pair)
    }

    /// See `Module::get_all_orderbook`.
    pub fn get_all_orderbook(&self) -> (r: Vec<OrderbookRpc>)
        ensures
            r@.len() == self.engine().books.len(),
            forall|i: int|
                0 <= i < self.engine().books.len() ==> orderbook_rpc_of(#[trigger] r@[i], self.engine().books@[i].orderbook),
    {
        self.client.get_all_orderbook()
    }

    /// See `Module::get_market_info`.
    pub fn get_market_info(&self, trading_pair: &Id32, blocknum: u32) -> (r: Option<MarketDataRpc>)
        requires
            self.engine().wf(),
        ensures
            match self.engine().market_of(trading_pair@, blocknum) {
                Some(md) => r is Some && market_rpc_of(r->Some_0, md),
                None => r is None,
            },
    {
        self.client.get_market_info(trading_pair, blocknum)
    }
}

} // verus!
