//! The matching engine: the registry of trading pairs, order submission
//! (validation, reservation, matching, placement of the residual),
//! cancellation, market statistics per period, and the read views.
use vstd::prelude::*;

verus! {

use crate::exchange::{
    do_asset_exchange, fill_base, fill_ledger, fill_ok, fill_quote, is_settlement_error, market_after,
};
use crate::fixed::{
    from_integer_inner, ACCURACY, LEDGER_SCALE, RPC_SCALE, balance_of_fixed, checked_mul, convert_balance_to_fixed_u128, convert_fixed_u128_to_balance, fixed_of_balance,
    mul_inner,
};
use crate::hashing::{blake2_256_of, create_order_id, create_trading_pair_id, order_encoding, pair_id_spec};
use crate::ladder::{links_ok, lower, placed, removed, resting_ok, sorted, upper, Ladder};
use crate::ledger::{reserved_from, unreserved_to, Balances, Id32, Ledger};
use crate::types::{
    level_rpc_of, market_rpc_of, orderbook_rpc_of, AssetId, BlockNumber, Error, Event, LinkedPriceLevelRpc,
    MarketData, MarketDataRpc, Order, OrderType, Orderbook, OrderbookRpc,
};

/// A fill event, reported for the resting order it touched.
pub open spec fn is_fill_event(e: Event) -> bool {
    e is PartialFillLimitOrder || e is FulfilledLimitOrder
}

/// What is left of an order to trade: the budget of a bid market order, the
/// quantity of any other.
pub open spec fn budget(o: Order) -> u128 {
    if o.order_type is BidMarket {
        o.price
    } else {
        o.quantity
    }
}

/// A limit order would not trade at price `p`.
pub open spec fn beyond_limit(o: Order, p: u128) -> bool {
    (o.order_type is BidLimit && p > o.price) || (o.order_type is AskLimit && p < o.price)
}

/// The order is the same but for what is left of it to trade.
pub open spec fn same_but_budget(a: Order, b: Order) -> bool {
    &&& a.id == b.id
    &&& a.trading_pair == b.trading_pair
    &&& a.trader == b.trader
    &&& a.order_type == b.order_type
    &&& a.order_type is BidMarket ==> a.quantity == b.quantity
    &&& !(a.order_type is BidMarket) ==> a.price == b.price
}

/// `events` extends `e0` with fill events only.
pub open spec fn extends_with_fills(e0: Seq<Event>, events: Seq<Event>) -> bool {
    &&& events.len() >= e0.len()
    &&& forall|i: int| 0 <= i < e0.len() ==> #[trigger] events[i] == e0[i]
    &&& forall|i: int| e0.len() <= i < events.len() ==> is_fill_event(#[trigger] events[i])
}


/// Position of the best price in a side's entries: the last for bids, the
/// first for asks.
pub open spec fn best_index(side: Seq<(u128, Seq<Order>)>, opp_is_bid: bool) -> int {
    if opp_is_bid {
        side.len() - 1
    } else {
        0
    }
}

/// Matching is over: nothing left to trade, an empty side, or a best price
/// beyond the taker's limit.
pub open spec fn match_done(side: Seq<(u128, Seq<Order>)>, taker: Order, opp_is_bid: bool) -> bool {
    budget(taker) == 0 || side.len() == 0 || beyond_limit(taker, side[best_index(side, opp_is_bid)].0)
}

/// One fill: the taker meets the oldest order at the best price. Returns the
/// side afterwards, the taker afterwards, and what is left of the maker.
pub open spec fn match_step(side: Seq<(u128, Seq<Order>)>, taker: Order, opp_is_bid: bool) -> (
    Seq<(u128, Seq<Order>)>,
    Order,
    int,
) {
    let k = best_index(side, opp_is_bid);
    let p = side[k].0;
    let fifo = side[k].1;
    let maker = fifo[0];
    let q = fill_quote(taker, maker);
    let b = fill_base(taker, maker);
    let left = maker.quantity - q;
    let taker2 = if taker.order_type is BidMarket {
        Order { price: (taker.price - b) as u128, ..taker }
    } else {
        Order { quantity: (taker.quantity - q) as u128, ..taker }
    };
    let side2 = if left > 0 {
        side.update(k, (p, fifo.update(0, Order { quantity: left as u128, ..maker })))
    } else if fifo.len() > 1 {
        side.update(k, (p, fifo.remove(0)))
    } else {
        side.remove(k)
    };
    (side2, taker2, left)
}

/// The side and the taker once matching is over. A fill that leaves the
/// maker in the book has used up the taker, so matching stops there.
pub open spec fn match_all(side: Seq<(u128, Seq<Order>)>, taker: Order, opp_is_bid: bool) -> (
    Seq<(u128, Seq<Order>)>,
    Order,
)
    decreases side.len(), side[best_index(side, opp_is_bid)].1.len(),
{
    if match_done(side, taker, opp_is_bid) {
        (side, taker)
    } else {
        let (side2, taker2, left) = match_step(side, taker, opp_is_bid);
        if left > 0 {
            (side2, taker2)
        } else {
            match_all(side2, taker2, opp_is_bid)
        }
    }
}


/// The report of a fill of `taker` against the resting `maker`, for the maker.
pub open spec fn fill_event(taker: Order, maker: Order) -> Event {
    let q = fill_quote(taker, maker) as u128;
    if maker.quantity - fill_quote(taker, maker) > 0 {
        Event::PartialFillLimitOrder(maker.id, maker.trading_pair, maker.order_type, maker.price, q, maker.trader)
    } else {
        Event::FulfilledLimitOrder(maker.id, maker.trading_pair, maker.order_type, maker.price, q, maker.trader)
    }
}

/// The reports of the fills of a matching, in order.
pub open spec fn match_events(side: Seq<(u128, Seq<Order>)>, taker: Order, opp_is_bid: bool) -> Seq<Event>
    decreases side.len(), side[best_index(side, opp_is_bid)].1.len(),
{
    if match_done(side, taker, opp_is_bid) {
        Seq::empty()
    } else {
        let (side2, taker2, left) = match_step(side, taker, opp_is_bid);
        let e = fill_event(taker, side[best_index(side, opp_is_bid)].1[0]);
        if left > 0 {
            seq![e]
        } else {
            seq![e] + match_events(side2, taker2, opp_is_bid)
        }
    }
}


/// The period's statistics after the fills of a matching, starting from `md`.
pub open spec fn match_market(side: Seq<(u128, Seq<Order>)>, taker: Order, opp_is_bid: bool, md: MarketData) -> MarketData
    decreases side.len(), side[best_index(side, opp_is_bid)].1.len(),
{
    if match_done(side, taker, opp_is_bid) {
        md
    } else {
        let (side2, taker2, left) = match_step(side, taker, opp_is_bid);
        let maker = side[best_index(side, opp_is_bid)].1[0];
        let md2 = market_after(md, maker.price, fill_base(taker, maker)).0;
        if left > 0 {
            md2
        } else {
            match_market(side2, taker2, opp_is_bid, md2)
        }
    }
}


/// Every fill of a matching succeeds, starting from statistics `md` and
/// balances `l`.
pub open spec fn match_ok(
    side: Seq<(u128, Seq<Order>)>,
    taker: Order,
    opp_is_bid: bool,
    md: MarketData,
    base: u32,
    quote: u32,
    l: Balances,
) -> bool
    decreases side.len(), side[best_index(side, opp_is_bid)].1.len(),
{
    if match_done(side, taker, opp_is_bid) {
        true
    } else {
        let (side2, taker2, left) = match_step(side, taker, opp_is_bid);
        let maker = side[best_index(side, opp_is_bid)].1[0];
        let md2 = market_after(md, maker.price, fill_base(taker, maker)).0;
        let l2 = fill_ledger(taker, maker, base, quote, l);
        fill_ok(taker, maker, md, base, quote, l) && (left > 0 || match_ok(side2, taker2, opp_is_bid, md2, base, quote, l2))
    }
}

/// The balances after the fills of a matching.
pub open spec fn match_ledger(
    side: Seq<(u128, Seq<Order>)>,
    taker: Order,
    opp_is_bid: bool,
    base: u32,
    quote: u32,
    l: Balances,
) -> Balances
    decreases side.len(), side[best_index(side, opp_is_bid)].1.len(),
{
    if match_done(side, taker, opp_is_bid) {
        l
    } else {
        let (side2, taker2, left) = match_step(side, taker, opp_is_bid);
        let maker = side[best_index(side, opp_is_bid)].1[0];
        let l2 = fill_ledger(taker, maker, base, quote, l);
        if left > 0 {
            l2
        } else {
            match_ledger(side2, taker2, opp_is_bid, base, quote, l2)
        }
    }
}

/// Matches `taker` against the opposite side `opp`, best price first and
/// oldest order first within a price, until the taker has nothing left to
/// trade, the side is empty, or (for a limit order) the best price is beyond
/// the taker's limit. Each fill settles through `do_asset_exchange` and is
/// reported for the resting order it touched.
#[verifier::rlimit(60)]
pub fn consume_order(
    taker: &mut Order,
    opp: &mut Ladder,
    opp_is_bid: bool,
    base_asset_id: u32,
    quote_asset_id: u32,
    ledger: &mut Ledger,
    market_data: &mut MarketData,
    events: &mut Vec<Event>,
) -> (r: Result<(), Error>)
    requires
        old(opp).wf(opp_is_bid, old(taker).trading_pair@),
        old(ledger).wf(),
        base_asset_id != quote_asset_id,
        old(taker).order_type.is_bid() == !opp_is_bid,
    ensures
        final(ledger).wf(),
        r is Err ==> is_settlement_error(r->Err_0),
        r is Ok <==> match_ok(
            old(opp).entries(),
            *old(taker),
            opp_is_bid,
            *old(market_data),
            base_asset_id,
            quote_asset_id,
            old(ledger)@,
        ),
        r is Ok ==> final(ledger)@ == match_ledger(
            old(opp).entries(),
            *old(taker),
            opp_is_bid,
            base_asset_id,
            quote_asset_id,
            old(ledger)@,
        ),
        r is Ok ==> {
            &&& final(opp).wf(opp_is_bid, old(taker).trading_pair@)
            &&& same_but_budget(*old(taker), *final(taker))
            &&& forall|x: u128| #[trigger] final(opp).prices@.contains(x) ==> old(opp).prices@.contains(x)
            &&& budget(*final(taker)) == 0 || final(opp).prices.len() == 0
                || beyond_limit(*final(taker), final(opp).best_spec(opp_is_bid))
            &&& extends_with_fills(old(events)@, final(events)@)
            &&& (final(opp).entries(), *final(taker)) == match_all(old(opp).entries(), *old(taker), opp_is_bid)
            &&& final(events)@ == old(events)@ + match_events(old(opp).entries(), *old(taker), opp_is_bid)
            &&& *final(market_data) == match_market(old(opp).entries(), *old(taker), opp_is_bid, *old(market_data))
            &&& (budget(*old(taker)) == 0 || old(opp).prices.len() == 0 || beyond_limit(
                *old(taker),
                old(opp).best_spec(opp_is_bid),
            )) ==> {
                &&& *final(opp) == *old(opp)
                &&& *final(taker) == *old(taker)
                &&& final(events)@ == old(events)@
                &&& *final(ledger) == *old(ledger)
                &&& *final(market_data) == *old(market_data)
            }
        },
{
    let ghost pair = taker.trading_pair@;
    let ghost t0 = *taker;
    let ghost o0 = *opp;
    let ghost e0 = events@;
    let ghost l0 = *ledger;
    let ghost md0 = *market_data;
    loop
        invariant
            opp.wf(opp_is_bid, pair),
            ledger.wf(),
            pair == t0.trading_pair@,
            same_but_budget(t0, *taker),
            t0.order_type.is_bid() == !opp_is_bid,
            base_asset_id != quote_asset_id,
            forall|x: u128| #[trigger] opp.prices@.contains(x) ==> o0.prices@.contains(x),
            extends_with_fills(e0, events@),
            (budget(t0) == 0 || o0.prices.len() == 0 || beyond_limit(t0, o0.best_spec(opp_is_bid))) ==> (*opp == o0
                && *taker == t0 && events@ == e0 && *ledger == l0 && *market_data == md0),
            match_all(opp.entries(), *taker, opp_is_bid) == match_all(o0.entries(), t0, opp_is_bid),
            events@ + match_events(opp.entries(), *taker, opp_is_bid) == e0 + match_events(o0.entries(), t0, opp_is_bid),
            match_market(opp.entries(), *taker, opp_is_bid, *market_data) == match_market(o0.entries(), t0, opp_is_bid, md0),
            o0 == *old(opp) && t0 == *old(taker) && md0 == *old(market_data) && l0 == *old(ledger),
            match_ok(opp.entries(), *taker, opp_is_bid, *market_data, base_asset_id, quote_asset_id, ledger@) == match_ok(
                o0.entries(),
                t0,
                opp_is_bid,
                md0,
                base_asset_id,
                quote_asset_id,
                l0@,
            ),
            match_ledger(opp.entries(), *taker, opp_is_bid, base_asset_id, quote_asset_id, ledger@) == match_ledger(
                o0.entries(),
                t0,
                opp_is_bid,
                base_asset_id,
                quote_asset_id,
                l0@,
            ),
        ensures
            opp.wf(opp_is_bid, pair),
            ledger.wf(),
            same_but_budget(t0, *taker),
            forall|x: u128| #[trigger] opp.prices@.contains(x) ==> o0.prices@.contains(x),
            budget(*taker) == 0 || opp.prices.len() == 0 || beyond_limit(*taker, opp.best_spec(opp_is_bid)),
            extends_with_fills(e0, events@),
            (budget(t0) == 0 || o0.prices.len() == 0 || beyond_limit(t0, o0.best_spec(opp_is_bid))) ==> (*opp == o0
                && *taker == t0 && events@ == e0 && *ledger == l0 && *market_data == md0),
            (opp.entries(), *taker) == match_all(o0.entries(), t0, opp_is_bid),
            events@ == e0 + match_events(o0.entries(), t0, opp_is_bid),
            *market_data == match_market(o0.entries(), t0, opp_is_bid, md0),
            match_ok(o0.entries(), t0, opp_is_bid, md0, base_asset_id, quote_asset_id, l0@),
            ledger@ == match_ledger(o0.entries(), t0, opp_is_bid, base_asset_id, quote_asset_id, l0@),
        decreases opp.prices.len(), opp.levels@[opp.best_pos(opp_is_bid)].orders.len(),
    {
        let left = if taker.order_type == OrderType::BidMarket {
            taker.price
        } else {
            taker.quantity
        };
        if left == 0 {
            assert(match_done(opp.entries(), *taker, opp_is_bid));
            assert(events@ + Seq::<Event>::empty() =~= events@);
            break;
        }
        let n = opp.prices.len();
        if n == 0 {
            assert(match_done(opp.entries(), *taker, opp_is_bid));
            assert(events@ + Seq::<Event>::empty() =~= events@);
            break;
        }
        let k = if opp_is_bid {
            n - 1
        } else {
            0
        };
        let p = opp.prices[k];
        if (taker.order_type == OrderType::BidLimit && p > taker.price) || (taker.order_type
            == OrderType::AskLimit && p < taker.price) {
            assert(match_done(opp.entries(), *taker, opp_is_bid));
            assert(events@ + Seq::<Event>::empty() =~= events@);
            break;
        }
        assert(!match_done(opp.entries(), *taker, opp_is_bid));
        let ghost step = match_step(opp.entries(), *taker, opp_is_bid);
        let ghost ev_before = events@;
        let ghost fe = fill_event(*taker, opp.entries()[k as int].1[0]);
        let mut maker = opp.levels[k].orders[0];
        assert(crate::ladder::resting_ok(opp.levels@[k as int].orders@[0], opp.prices@[k as int], opp_is_bid, pair));
        let ghost mb = maker;
        let ghost before = *opp;
        let ghost step_taker = *taker;
        let ghost md_before = *market_data;
        let ghost led_before = *ledger;
        assert(mb == before.entries()[k as int].1[0]);
        let q = match do_asset_exchange(taker, &mut maker, market_data, base_asset_id, quote_asset_id, ledger) {
            Ok(q) => q,
            Err(e) => {
                assert(!match_ok(before.entries(), step_taker, opp_is_bid, md_before, base_asset_id, quote_asset_id, led_before@));
                assert(!match_ok(o0.entries(), t0, opp_is_bid, md0, base_asset_id, quote_asset_id, l0@));
                return Err(e);
            },
        };
        if maker.quantity > 0 {
            opp.set_quantity(k, 0, maker.quantity, opp_is_bid, Ghost(pair));
            assert(opp.entries() == step.0);
            assert(*taker == step.1);
            events.push(Module::emit_partial_fill(&maker, q));
            assert(events@ =~= ev_before + seq![fe]);
            assert(forall|x: u128| #[trigger] opp.prices@.contains(x) ==> before.prices@.contains(x));
            assert(budget(*taker) == 0);
            break;
        } else {
            let ghost len_before = before.levels@[k as int].orders.len();
            opp.remove_order(k, 0, opp_is_bid, Ghost(pair));
            assert(opp.entries() == step.0);
            assert(*taker == step.1);
            events.push(Module::emit_complete_fill(&maker, q));
            assert(events@ =~= ev_before + seq![fe]);
            assert(seq![fe] + match_events(opp.entries(), *taker, opp_is_bid) == match_events(before.entries(), step_taker, opp_is_bid));
            assert(match_market(opp.entries(), *taker, opp_is_bid, *market_data) == match_market(before.entries(), step_taker, opp_is_bid, md_before));
            assert(match_ok(opp.entries(), *taker, opp_is_bid, *market_data, base_asset_id, quote_asset_id, ledger@)
                == match_ok(before.entries(), step_taker, opp_is_bid, md_before, base_asset_id, quote_asset_id, led_before@));
            assert(match_ledger(opp.entries(), *taker, opp_is_bid, base_asset_id, quote_asset_id, ledger@)
                == match_ledger(before.entries(), step_taker, opp_is_bid, base_asset_id, quote_asset_id, led_before@));
            proof {
                if len_before == 1 {
                    assert forall|x: u128| #[trigger] opp.prices@.contains(x) implies o0.prices@.contains(x) by {
                        let i = choose|i: int| 0 <= i < opp.prices.len() && opp.prices@[i] == x;
                        if i < k {
                            assert(before.prices@[i] == x);
                        } else {
                            assert(before.prices@[i + 1] == x);
                        }
                        assert(before.prices@.contains(x));
                    }
                } else {
                    assert(opp.entries()[k as int].1.len() == len_before - 1);
                }
            }
        }
    }
    Ok(())
}

/// The book of one trading pair: its record and its two sides.
pub struct PairBook {
    pub orderbook: Orderbook,
    pub asks: Ladder,
    pub bids: Ladder,
}

impl PairBook {
    /// Both sides are well formed, the cached best prices are those of the
    /// sides, and the book is not crossed.
    pub open spec fn wf(&self) -> bool {
        let pair = self.orderbook.trading_pair@;
        &&& self.orderbook.base_asset_id != self.orderbook.quote_asset_id
        &&& self.asks.wf(false, pair)
        &&& self.bids.wf(true, pair)
        &&& self.orderbook.best_ask_price == self.asks.best_spec(false)
        &&& self.orderbook.best_bid_price == self.bids.best_spec(true)
        &&& self.asks.prices.len() > 0 && self.bids.prices.len() > 0 ==> self.orderbook.best_bid_price
            < self.orderbook.best_ask_price
    }

    /// A copy of the book.
    pub fn copy(&self) -> (r: PairBook)
        ensures
            r.orderbook == self.orderbook,
            r.asks.levels.len() == self.asks.levels.len(),
            r.bids.levels.len() == self.bids.levels.len(),
            r.asks.prices@ == self.asks.prices@,
            r.bids.prices@ == self.bids.prices@,
            self.asks.prices.len() == self.asks.levels.len() ==> r.asks.entries() == self.asks.entries(),
            self.bids.prices.len() == self.bids.levels.len() ==> r.bids.entries() == self.bids.entries(),
            self.wf() ==> r.wf(),
    {
        PairBook { orderbook: self.orderbook, asks: self.asks.copy(), bids: self.bids.copy() }
    }
}

/// Every bid price is below every ask price.
pub open spec fn separated(bids: Seq<u128>, asks: Seq<u128>) -> bool {
    forall|x: u128, y: u128| #[trigger] bids.contains(x) && #[trigger] asks.contains(y) ==> x < y
}

proof fn lemma_separated_of_best(bids: Seq<u128>, asks: Seq<u128>)
    requires
        sorted(bids),
        sorted(asks),
        bids.len() > 0 && asks.len() > 0 ==> bids.last() < asks[0],
    ensures
        separated(bids, asks),
{
    assert forall|x: u128, y: u128| #[trigger] bids.contains(x) && #[trigger] asks.contains(y) implies x < y by {
        let i = choose|i: int| 0 <= i < bids.len() && bids[i] == x;
        let j = choose|j: int| 0 <= j < asks.len() && asks[j] == y;
        if i < bids.len() - 1 {
            assert(bids[i] < bids.last());
        }
        if j > 0 {
            assert(asks[0] < asks[j]);
        }
    }
}

proof fn lemma_best_of_separated(bids: Seq<u128>, asks: Seq<u128>)
    requires
        separated(bids, asks),
    ensures
        bids.len() > 0 && asks.len() > 0 ==> bids.last() < asks[0],
{
    if bids.len() > 0 && asks.len() > 0 {
        assert(bids.contains(bids.last()));
        assert(asks.contains(asks[0]));
    }
}


/// The side holds, at `price`, an order with identifier `id`.
pub open spec fn side_has_order(l: Ladder, price: u128, id: Seq<u8>) -> bool {
    exists|k: int, j: int|
        0 <= k < l.prices.len() && 0 <= j < l.levels@[k].orders.len() && l.prices@[k] == price
            && (#[trigger] l.levels@[k].orders@[j]).id@ == id
}

/// The book holds, at `price`, an order with identifier `id`.
pub open spec fn book_has_order(b: PairBook, price: u128, id: Seq<u8>) -> bool {
    side_has_order(b.asks, price, id) || side_has_order(b.bids, price, id)
}

/// Position of the first order with identifier `id` in the level at `k`.
fn find_in_level(l: &Ladder, k: usize, id: &Id32) -> (r: Option<usize>)
    requires
        k < l.levels.len(),
    ensures
        match r {
            Some(j) => j < l.levels@[k as int].orders.len() && l.levels@[k as int].orders@[j as int].id@ == id@
                && forall|i: int| 0 <= i < j ==> (#[trigger] l.levels@[k as int].orders@[i]).id@ != id@,
            None => forall|j: int| 0 <= j < l.levels@[k as int].orders.len()
                ==> (#[trigger] l.levels@[k as int].orders@[j]).id@ != id@,
        },
{
    let mut j: usize = 0;
    while j < l.levels[k].orders.len()
        invariant
            k < l.levels.len(),
            0 <= j <= l.levels@[k as int].orders.len(),
            forall|i: int| 0 <= i < j ==> (#[trigger] l.levels@[k as int].orders@[i]).id@ != id@,
        decreases l.levels@[k as int].orders.len() - j,
    {
        if crate::ledger::same_id(&l.levels[k].orders[j].id, id) {
            return Some(j);
        }
        j = j + 1;
    }
    None
}

/// Locates the order with identifier `id` at `price` on one side: the
/// position of its level and its position in the FIFO.
fn locate(l: &Ladder, is_bid: bool, pair: Ghost<Seq<u8>>, price: u128, id: &Id32) -> (r: Option<(usize, usize)>)
    requires
        l.wf(is_bid, pair@),
    ensures
        match r {
            Some((k, j)) => first_at(*l, price, id@, k as int, j as int),
            None => !side_has_order(*l, price, id@) && forall|k: int, j: int| !first_at(*l, price, id@, k, j),
        },
{
    match l.search(price) {
        Ok(k) => match find_in_level(l, k, id) {
            Some(j) => Some((k, j)),
            None => {
                assert forall|kk: int, j: int|
                    0 <= kk < l.prices.len() && 0 <= j < l.levels@[kk].orders.len() && l.prices@[kk] == price
                        implies (#[trigger] l.levels@[kk].orders@[j]).id@ != id@ by {
                    if kk < k {
                        assert(l.prices@[kk] < l.prices@[k as int]);
                    } else if kk > k {
                        assert(l.prices@[k as int] < l.prices@[kk]);
                    }
                }
                None
            },
        },
        Err(_) => None,
    }
}


/// The invariants of a registered pair's book hold in every well-formed
/// engine, and every operation that changes the engine keeps it well formed:
/// each index is strictly ascending; each active price has a non-empty FIFO
/// of resting limit orders of its side at that price; the links of each level
/// name its neighbours in the index (toward higher prices on the ask side,
/// `next` walking away from the best price on either side); the cached best
/// prices are the lowest ask and the highest bid, or 0 for an empty side; and
/// the highest bid is below the lowest ask.
pub proof fn lemma_book_invariants(m: Module, pair: Seq<u8>)
    requires
        m.wf(),
        m.has_pair(pair),
    ensures
        ({
            let b = m.book_of(pair);
            &&& sorted(b.asks.prices@)
            &&& sorted(b.bids.prices@)
            &&& b.asks.levels.len() == b.asks.prices.len()
            &&& b.bids.levels.len() == b.bids.prices.len()
            &&& forall|i: int, j: int|
                0 <= i < b.asks.levels.len() && 0 <= j < b.asks.levels@[i].orders.len() ==> {
                    let o = #[trigger] b.asks.levels@[i].orders@[j];
                    o.order_type is AskLimit && o.price == b.asks.prices@[i] && o.quantity > 0
                }
            &&& forall|i: int, j: int|
                0 <= i < b.bids.levels.len() && 0 <= j < b.bids.levels@[i].orders.len() ==> {
                    let o = #[trigger] b.bids.levels@[i].orders@[j];
                    o.order_type is BidLimit && o.price == b.bids.prices@[i] && o.quantity > 0
                }
            &&& forall|i: int| 0 <= i < b.asks.levels.len() ==> (#[trigger] b.asks.levels@[i]).orders.len() > 0
            &&& forall|i: int| 0 <= i < b.bids.levels.len() ==> (#[trigger] b.bids.levels@[i]).orders.len() > 0
            &&& forall|i: int|
                0 <= i < b.asks.levels.len() ==> (#[trigger] b.asks.levels@[i]).prev == lower(b.asks.prices@, i)
                    && b.asks.levels@[i].next == upper(b.asks.prices@, i)
            &&& forall|i: int|
                0 <= i < b.bids.levels.len() ==> (#[trigger] b.bids.levels@[i]).prev == upper(b.bids.prices@, i)
                    && b.bids.levels@[i].next == lower(b.bids.prices@, i)
            &&& b.orderbook.best_ask_price == (if b.asks.prices.len() == 0 {
                0
            } else {
                b.asks.prices@[0]
            })
            &&& b.orderbook.best_bid_price == (if b.bids.prices.len() == 0 {
                0
            } else {
                b.bids.prices@.last()
            })
            &&& b.orderbook.best_bid_price != 0 && b.orderbook.best_ask_price != 0 ==> b.orderbook.best_bid_price
                < b.orderbook.best_ask_price
        }),
{
    let i = choose|i: int| 0 <= i < m.books.len() && (#[trigger] m.books@[i]).orderbook.trading_pair@ == pair;
    let b = m.book_of(pair);
    assert(b.wf());
    assert forall|i: int, j: int| 0 <= i < b.asks.levels.len() && 0 <= j < b.asks.levels@[i].orders.len() implies {
        let o = #[trigger] b.asks.levels@[i].orders@[j];
        o.order_type is AskLimit && o.price == b.asks.prices@[i] && o.quantity > 0
    } by {
        assert(resting_ok(b.asks.levels@[i].orders@[j], b.asks.prices@[i], false, pair));
    }
    assert forall|i: int, j: int| 0 <= i < b.bids.levels.len() && 0 <= j < b.bids.levels@[i].orders.len() implies {
        let o = #[trigger] b.bids.levels@[i].orders@[j];
        o.order_type is BidLimit && o.price == b.bids.prices@[i] && o.quantity > 0
    } by {
        assert(resting_ok(b.bids.levels@[i].orders@[j], b.bids.prices@[i], true, pair));
    }
    assert forall|i: int| 0 <= i < b.asks.levels.len() implies (#[trigger] b.asks.levels@[i]).prev == lower(
        b.asks.prices@,
        i,
    ) && b.asks.levels@[i].next == upper(b.asks.prices@, i) by {
        assert(links_ok(b.asks.levels@[i], b.asks.prices@, i, false));
    }
    assert forall|i: int| 0 <= i < b.bids.levels.len() implies (#[trigger] b.bids.levels@[i]).prev == upper(
        b.bids.prices@,
        i,
    ) && b.bids.levels@[i].next == lower(b.bids.prices@, i) by {
        assert(links_ok(b.bids.levels@[i], b.bids.prices@, i, true));
    }
    if b.bids.prices.len() > 0 {
        assert(b.bids.prices@.last() > 0);
    }
    if b.asks.prices.len() > 0 {
        assert(b.asks.prices@[0] > 0);
    }
}


/// What a resting order still has reserved, as an engine amount: its price
/// times its quantity for a bid, its quantity for an ask.
pub open spec fn obligation(o: Order) -> int {
    if o.order_type is BidLimit {
        mul_inner(o.price as int, o.quantity as int)
    } else {
        o.quantity as int
    }
}

/// One side of a book.
pub open spec fn side_of(b: PairBook, is_bid: bool) -> Ladder {
    if is_bid {
        b.bids
    } else {
        b.asks
    }
}

/// `b1` is `b0` without order `j` of the level at position `k` of one side,
/// an order of `trader` at `price` with identifier `id`; the other side and
/// the pair's assets are unchanged.
pub open spec fn cancelled(
    b0: PairBook,
    b1: PairBook,
    is_bid: bool,
    k: int,
    j: int,
    price: u128,
    id: Seq<u8>,
    trader: Seq<u8>,
) -> bool {
    let s0 = side_of(b0, is_bid);
    &&& 0 <= k < s0.prices.len()
    &&& 0 <= j < s0.levels@[k].orders.len()
    &&& s0.prices@[k] == price
    &&& s0.levels@[k].orders@[j].id@ == id
    &&& s0.levels@[k].orders@[j].trader@ == trader
    &&& removed(s0, side_of(b1, is_bid), k, j)
    &&& side_of(b1, !is_bid).entries() == side_of(b0, !is_bid).entries()
    &&& b1.orderbook.trading_pair == b0.orderbook.trading_pair
    &&& b1.orderbook.base_asset_id == b0.orderbook.base_asset_id
    &&& b1.orderbook.quote_asset_id == b0.orderbook.quote_asset_id
}


/// `r` is the read-view projection of the levels of `b`: the ask levels
/// ascending, then the bid levels ascending.
pub open spec fn levels_rpc_of(r: Seq<LinkedPriceLevelRpc>, b: PairBook) -> bool {
    &&& r.len() == b.asks.levels.len() + b.bids.levels.len()
    &&& forall|i: int| 0 <= i < b.asks.levels.len() ==> level_rpc_of(#[trigger] r[i], b.asks.levels@[i])
    &&& forall|i: int|
        0 <= i < b.bids.levels.len() ==> level_rpc_of(#[trigger] r[b.asks.levels.len() + i], b.bids.levels@[i])
}


/// Checks the shape of a request: a limit order needs a price and a
/// quantity, a bid market order a budget (carried as its price), an ask
/// market order a quantity.
pub fn basic_order_checks(order_type: OrderType, price: u128, quantity: u128) -> (r: Result<(), Error>)
    ensures
        match request_error(order_type, price, quantity) {
            Some(e) => r == Err::<(), Error>(e),
            None => r is Ok,
        },
{
    if order_type.is_limit() && (price == 0 || quantity == 0) {
        return Err(Error::InvalidPriceOrQuantityLimit);
    }
    if order_type == OrderType::BidMarket && price == 0 {
        return Err(Error::InvalidBidMarketPrice);
    }
    if order_type == OrderType::AskMarket && quantity == 0 {
        return Err(Error::InvalidAskMarketQuantity);
    }
    Ok(())
}

/// An engine amount within what a ledger balance converts to is, back as a
/// ledger balance, within that balance.
proof fn lemma_covered(required: int, free: int)
    requires
        0 <= required,
        0 <= free,
        required <= fixed_of_balance(free),
    ensures
        balance_of_fixed(required) <= free,
{
    let x = from_integer_inner(free);
    let d = LEDGER_SCALE as int;
    assert(x <= free * (ACCURACY as int));
    assert(required * d <= x) by {
        vstd::arithmetic::div_mod::lemma_fundamental_div_mod(x, d);
        vstd::arithmetic::mul::lemma_mul_inequality(required, x / d, d);
        assert((x / d) * d <= x) by (nonlinear_arith)
            requires
                x == d * (x / d) + x % d,
                x % d >= 0,
        ;
    }
    assert(required <= free * (RPC_SCALE as int)) by (nonlinear_arith)
        requires
            required * d <= free * (ACCURACY as int),
            d == 1_000_000_000_000,
            ACCURACY as int == 1_000_000_000_000_000_000,
            RPC_SCALE as int == 1_000_000,
    ;
    vstd::arithmetic::div_mod::lemma_div_is_ordered(required, free * (RPC_SCALE as int), RPC_SCALE as int);
    vstd::arithmetic::div_mod::lemma_div_multiples_vanish(free, RPC_SCALE as int);
    assert(free * (RPC_SCALE as int) == (RPC_SCALE as int) * free) by (nonlinear_arith);
}

/// Checks that `trader` has the funds an order needs in its funding asset
/// (the base asset for bids, the quote asset for asks) and, for a limit
/// order, reserves them. A market order reserves nothing: its fills debit the
/// trader's free balance as they happen.
pub fn check_order(
    ledger: &mut Ledger,
    orderbook: &Orderbook,
    trader: &Id32,
    order_type: OrderType,
    price: u128,
    quantity: u128,
) -> (r: Result<(), Error>)
    requires
        old(ledger).wf(),
    ensures
        final(ledger).wf(),
        ({
            let asset = if order_type.is_bid() {
                orderbook.base_asset_id
            } else {
                orderbook.quote_asset_id
            };
            let required = required_amount(order_type, price, quantity);
            &&& (r == Err::<(), Error>(Error::InternalErrorU128Balance)) <==> required > u128::MAX
            &&& required <= u128::MAX ==> ((r == Err::<(), Error>(Error::InsufficientAssetBalance)) <==> fixed_of_balance(
                old(ledger).free_of(asset, trader@),
            ) < required)
            &&& r is Err ==> (r->Err_0 is InternalErrorU128Balance || r->Err_0 is InsufficientAssetBalance)
            &&& required <= u128::MAX && fixed_of_balance(old(ledger).free_of(asset, trader@)) >= required ==> r is Ok
            &&& r is Ok && order_type.is_limit() ==> reserved_from(
                *old(ledger),
                *final(ledger),
                asset,
                trader@,
                balance_of_fixed(required),
            )
            &&& r is Ok && !order_type.is_limit() ==> *final(ledger) == *old(ledger)
        }),
{
    let asset = if order_type.is_bid() {
        orderbook.base_asset_id
    } else {
        orderbook.quote_asset_id
    };
    let required: u128 = match order_type {
        OrderType::BidLimit => match checked_mul(price, quantity) {
            Some(v) => v,
            None => {
                return Err(Error::InternalErrorU128Balance);
            },
        },
        OrderType::BidMarket => price,
        _ => quantity,
    };
    let free = ledger.free_balance(asset, trader);
    let converted = convert_balance_to_fixed_u128(free);
    if converted < required {
        return Err(Error::InsufficientAssetBalance);
    }
    if order_type.is_limit() {
        let amt = convert_fixed_u128_to_balance(required);
        proof {
            lemma_covered(required as int, free as int);
        }
        if ledger.reserve(asset, trader, amt).is_err() {
            return Err(Error::ReserveAmountFailed);
        }
    }
    Ok(())
}


/// The event that closes the submission of an order, given what is left of
/// it after matching.
pub open spec fn terminal_event(rest: Order) -> Event {
    if rest.order_type.is_limit() {
        if rest.quantity > 0 {
            Event::NewLimitOrder(rest.id, rest.trading_pair, rest.order_type, rest.price, rest.quantity, rest.trader)
        } else {
            Event::FulfilledLimitOrder(rest.id, rest.trading_pair, rest.order_type, rest.price, rest.quantity, rest.trader)
        }
    } else if budget(rest) > 0 {
        Event::UnfilledMarketOrder(rest.id, rest.trading_pair, rest.order_type, rest.price, rest.quantity, rest.trader)
    } else {
        Event::FilledMarketOrder(rest.id, rest.trading_pair, rest.order_type, rest.price, rest.quantity, rest.trader)
    }
}

/// `b1` is `b0` after the submission of `o`: the opposite side is what
/// matching leaves of it, what is left of a limit order rests on its own side,
/// and `events` are the reports of the fills followed by the event closing
/// the submission.
pub open spec fn submitted(b0: PairBook, b1: PairBook, o: Order, events: Seq<Event>) -> bool {
    let is_bid = o.order_type.is_bid();
    let m = match_all(side_of(b0, !is_bid).entries(), o, !is_bid);
    let rest = m.1;
    &&& side_of(b1, !is_bid).entries() == m.0
    &&& o.order_type.is_limit() && rest.quantity > 0 ==> placed(side_of(b0, is_bid), side_of(b1, is_bid), rest)
    &&& !(o.order_type.is_limit() && rest.quantity > 0) ==> side_of(b1, is_bid).entries() == side_of(
        b0,
        is_bid,
    ).entries()
    &&& events == match_events(side_of(b0, !is_bid).entries(), o, !is_bid).push(terminal_event(rest))
}


/// The statistics of `pair` for period `block` in `m1` follow from those in
/// `m0` and the fills of the submission of `o`; with no fill nothing is
/// recorded.
pub open spec fn market_recorded(m0: Module, m1: Module, pair: Seq<u8>, block: BlockNumber, o: Order) -> bool {
    let is_bid = o.order_type.is_bid();
    let side = side_of(m0.book_of(pair), !is_bid).entries();
    let md0 = match m0.market_of(pair, block) {
        Some(md) => md,
        None => MarketData { low: 0, high: 0, volume: 0 },
    };
    if match_events(side, o, !is_bid).len() > 0 {
        &&& m1.market_of(pair, block) == Some(match_market(side, o, !is_bid, md0))
        &&& forall|p2: Seq<u8>, b2: BlockNumber|
            (p2, b2) != (pair, block) ==> #[trigger] m1.market_of(p2, b2) == m0.market_of(p2, b2)
    } else {
        m1.market_info == m0.market_info
    }
}

/// The two orders differ at most in their identifiers.
pub open spec fn same_but_id(a: Order, b: Order) -> bool {
    &&& a.trading_pair == b.trading_pair
    &&& a.trader == b.trader
    &&& a.price == b.price
    &&& a.quantity == b.quantity
    &&& a.order_type == b.order_type
}

/// Matching does not depend on the incoming order's identifier.
pub proof fn lemma_match_id(
    side: Seq<(u128, Seq<Order>)>,
    t1: Order,
    t2: Order,
    opp_is_bid: bool,
    md: MarketData,
    base: u32,
    quote: u32,
    l: Balances,
)
    requires
        same_but_id(t1, t2),
    ensures
        match_ok(side, t1, opp_is_bid, md, base, quote, l) == match_ok(side, t2, opp_is_bid, md, base, quote, l),
        match_ledger(side, t1, opp_is_bid, base, quote, l) == match_ledger(side, t2, opp_is_bid, base, quote, l),
    decreases side.len(), side[best_index(side, opp_is_bid)].1.len(),
{
    if !match_done(side, t1, opp_is_bid) {
        let (side2, a2, left) = match_step(side, t1, opp_is_bid);
        let (_, b2, _) = match_step(side, t2, opp_is_bid);
        let maker = side[best_index(side, opp_is_bid)].1[0];
        let md2 = market_after(md, maker.price, fill_base(t1, maker)).0;
        let l2 = fill_ledger(t1, maker, base, quote, l);
        if left <= 0 {
            lemma_match_id(side2, a2, b2, opp_is_bid, md2, base, quote, l2);
        }
    }
}

/// The balances once the funds check of a submission has reserved what a
/// limit order needs; a market order reserves nothing.
pub open spec fn funded(m: Module, o: Order) -> Balances {
    let asset = m.funding_asset(o.trading_pair@, o.order_type);
    let amt = balance_of_fixed(required_amount(o.order_type, o.price, o.quantity));
    if o.order_type.is_limit() {
        m.ledger@.insert(
            (asset, o.trader@),
            ((m.ledger.free_of(asset, o.trader@) - amt) as u128, (m.ledger.reserved_of(asset, o.trader@) + amt) as u128),
        )
    } else {
        m.ledger@
    }
}

/// The statistics a submission during `block` starts from.
pub open spec fn market_base(m: Module, pair: Seq<u8>, block: BlockNumber) -> MarketData {
    match m.market_of(pair, block) {
        Some(md) => md,
        None => MarketData { low: 0, high: 0, volume: 0 },
    }
}

/// Every fill of the submission of `o` succeeds.
pub open spec fn submission_ok(m: Module, o: Order, block: BlockNumber) -> bool {
    let b = m.book_of(o.trading_pair@);
    let is_bid = o.order_type.is_bid();
    match_ok(
        side_of(b, !is_bid).entries(),
        o,
        !is_bid,
        market_base(m, o.trading_pair@, block),
        b.orderbook.base_asset_id,
        b.orderbook.quote_asset_id,
        funded(m, o),
    )
}

/// The balances after the submission of `o`.
pub open spec fn submission_ledger(m: Module, o: Order) -> Balances {
    let b = m.book_of(o.trading_pair@);
    let is_bid = o.order_type.is_bid();
    match_ledger(
        side_of(b, !is_bid).entries(),
        o,
        !is_bid,
        b.orderbook.base_asset_id,
        b.orderbook.quote_asset_id,
        funded(m, o),
    )
}

/// Matches a validated, funded `order` against the opposite side of `book`,
/// rests what is left of a limit order on its own side, brings the best
/// prices up to date, and returns the fill reports followed by the event
/// closing the submission. It fails exactly when a fill fails.
#[verifier::rlimit(80)]
pub fn place_order(
    book: &mut PairBook,
    order: Order,
    ledger: &mut Ledger,
    md: &mut MarketData,
) -> (r: Result<Vec<Event>, Error>)
    requires
        old(book).wf(),
        old(ledger).wf(),
        order.trading_pair@ == old(book).orderbook.trading_pair@,
        request_error(order.order_type, order.price, order.quantity) is None,
    ensures
        final(ledger).wf(),
        r is Ok <==> match_ok(
            side_of(*old(book), !order.order_type.is_bid()).entries(),
            order,
            !order.order_type.is_bid(),
            *old(md),
            old(book).orderbook.base_asset_id,
            old(book).orderbook.quote_asset_id,
            old(ledger)@,
        ),
        r is Err ==> is_settlement_error(r->Err_0),
        r is Ok ==> {
            let side = side_of(*old(book), !order.order_type.is_bid()).entries();
            &&& final(book).wf()
            &&& final(book).orderbook.trading_pair == old(book).orderbook.trading_pair
            &&& final(book).orderbook.base_asset_id == old(book).orderbook.base_asset_id
            &&& final(book).orderbook.quote_asset_id == old(book).orderbook.quote_asset_id
            &&& submitted(*old(book), *final(book), order, r->Ok_0@)
            &&& r->Ok_0@.len() > 0
            &&& is_terminal_event(r->Ok_0@.last())
            &&& event_order_id(r->Ok_0@.last()) == order.id@
            &&& forall|i: int| 0 <= i < r->Ok_0@.len() - 1 ==> is_fill_event(#[trigger] r->Ok_0@[i])
            &&& final(ledger)@ == match_ledger(
                side,
                order,
                !order.order_type.is_bid(),
                old(book).orderbook.base_asset_id,
                old(book).orderbook.quote_asset_id,
                old(ledger)@,
            )
            &&& *final(md) == match_market(side, order, !order.order_type.is_bid(), *old(md))
            &&& ({
                let rest = match_all(side, order, !order.order_type.is_bid()).1;
                let opp = side_of(*final(book), !order.order_type.is_bid());
                budget(rest) == 0 || opp.prices.len() == 0 || beyond_limit(rest, opp.best_spec(!order.order_type.is_bid()))
            })
        },
{
    let ghost orig = *book;
    let ghost b0 = *book;
    let ghost order0 = order;
    let mut order = order;
    let order_type = order.order_type;
    let is_bid = order_type.is_bid();
    let ob = book.orderbook;
    let mut events: Vec<Event> = Vec::new();
        let consumed = if is_bid {
            consume_order(&mut order, &mut book.asks, false, ob.base_asset_id, ob.quote_asset_id, ledger, md, &mut events)
        } else {
            consume_order(&mut order, &mut book.bids, true, ob.base_asset_id, ob.quote_asset_id, ledger, md, &mut events)
        };
        match consumed {
            Ok(()) => {},
            Err(e) => {
                return Err(e);
            },
        }
        assert(events@ =~= match_events(side_of(orig, !is_bid).entries(), order0, !is_bid));
        proof {
            lemma_separated_of_best(b0.bids.prices@, b0.asks.prices@);
        }
        let ghost b1 = book;
        if order_type.is_limit() && order.quantity > 0 {
            if is_bid {
                book.bids.insert_order(order, true);
                proof {
                    assert forall|x: u128, y: u128| #[trigger] book.bids.prices@.contains(x) && #[trigger] book.asks.prices@.contains(y) implies x < y by {
                        assert(book.bids.prices@.to_set().contains(x));
                        if x != order.price {
                            assert(b1.bids.prices@.to_set().contains(x));
                        } else {
                            assert(book.asks.prices@.contains(book.asks.prices@[0]));
                            if y != book.asks.prices@[0] {
                                let j = choose|j: int| 0 <= j < book.asks.prices.len() && book.asks.prices@[j] == y;
                                assert(book.asks.prices@[0] < book.asks.prices@[j]);
                            }
                        }
                    }
                }
            } else {
                book.asks.insert_order(order, false);
                proof {
                    assert forall|x: u128, y: u128| #[trigger] book.bids.prices@.contains(x) && #[trigger] book.asks.prices@.contains(y) implies x < y by {
                        assert(book.asks.prices@.to_set().contains(y));
                        if y != order.price {
                            assert(b1.asks.prices@.to_set().contains(y));
                        } else {
                            let l = book.bids.prices.len() - 1;
                            assert(book.bids.prices@.contains(book.bids.prices@[l]));
                            if x != book.bids.prices@[l] {
                                let j = choose|j: int| 0 <= j < book.bids.prices.len() && book.bids.prices@[j] == x;
                                assert(book.bids.prices@[j] < book.bids.prices@[l]);
                            }
                        }
                    }
                }
            }
        }
        proof {
            lemma_best_of_separated(book.bids.prices@, book.asks.prices@);
        }
        book.orderbook.best_ask_price = book.asks.best(false);
        book.orderbook.best_bid_price = book.bids.best(true);
        let left = if order_type == OrderType::BidMarket {
            order.price
        } else {
            order.quantity
        };
        let ev = if order_type.is_limit() {
            if order.quantity > 0 {
                Event::NewLimitOrder(order.id, order.trading_pair, order.order_type, order.price, order.quantity, order.trader)
            } else {
                Event::FulfilledLimitOrder(order.id, order.trading_pair, order.order_type, order.price, order.quantity, order.trader)
            }
        } else if left > 0 {
            Event::UnfilledMarketOrder(order.id, order.trading_pair, order.order_type, order.price, order.quantity, order.trader)
        } else {
            Event::FilledMarketOrder(order.id, order.trading_pair, order.order_type, order.price, order.quantity, order.trader)
        };
        events.push(ev);
    proof {
        assert(submitted(orig, *book, order0, events@));
    }
    Ok(events)
}

/// Order `j` of the level at position `k` of side `l` is the first order at
/// `price` with identifier `id`.
pub open spec fn first_at(l: Ladder, price: u128, id: Seq<u8>, k: int, j: int) -> bool {
    &&& 0 <= k < l.prices.len()
    &&& l.prices@[k] == price
    &&& 0 <= j < l.levels@[k].orders.len()
    &&& l.levels@[k].orders@[j].id@ == id
    &&& forall|i: int| 0 <= i < j ==> (#[trigger] l.levels@[k].orders@[i]).id@ != id
}

/// The statistics recorded in `info` for `pair` and period `block`, if any.
pub open spec fn market_in(info: Seq<MarketEntry>, pair: Seq<u8>, block: BlockNumber) -> Option<MarketData> {
    if exists|i: int| 0 <= i < info.len() && (#[trigger] info[i]).trading_pair@ == pair && info[i].block == block {
        let i = choose|i: int| 0 <= i < info.len() && (#[trigger] info[i]).trading_pair@ == pair && info[i].block == block;
        Some(info[i].data)
    } else {
        None
    }
}

/// Trading statistics of a pair for one period.
#[derive(Clone, Copy, Debug)]
pub struct MarketEntry {
    pub trading_pair: Id32,
    pub block: BlockNumber,
    pub data: MarketData,
}

/// The engine: registered pairs with their books, market statistics per pair
/// and period, the order nonce, and the ledger it settles against.
pub struct Module {
    pub books: Vec<PairBook>,
    pub market_info: Vec<MarketEntry>,
    pub nonce: u128,
    pub ledger: Ledger,
    /// The asset in which registering a pair reserves a fee.
    pub spending_asset_id: AssetId,
    /// The amount reserved from whoever registers a pair.
    pub reservation_fee: u128,
}

/// The validation of a submission fails with this error, if any.
pub open spec fn request_error(order_type: OrderType, price: u128, quantity: u128) -> Option<Error> {
    if order_type.is_limit() && (price == 0 || quantity == 0) {
        Some(Error::InvalidPriceOrQuantityLimit)
    } else if order_type is BidMarket && price == 0 {
        Some(Error::InvalidBidMarketPrice)
    } else if order_type is AskMarket && quantity == 0 {
        Some(Error::InvalidAskMarketQuantity)
    } else {
        None
    }
}

/// The engine amount a submission needs of its funding asset: price times
/// quantity for a bid limit order, the budget for a bid market order, the
/// quantity for an ask.
pub open spec fn required_amount(order_type: OrderType, price: u128, quantity: u128) -> int {
    match order_type {
        OrderType::BidLimit => mul_inner(price as int, quantity as int),
        OrderType::BidMarket => price as int,
        _ => quantity as int,
    }
}

/// The nonce after `n`, wrapping to 0 after the largest value.
pub open spec fn next_nonce(n: u128) -> u128 {
    if n == u128::MAX {
        0
    } else {
        (n + 1) as u128
    }
}

/// The order identifier an order event carries.
pub open spec fn event_order_id(e: Event) -> Seq<u8> {
    match e {
        Event::NewLimitOrder(id, ..) => id@,
        Event::UnfilledMarketOrder(id, ..) => id@,
        Event::FilledMarketOrder(id, ..) => id@,
        Event::FulfilledLimitOrder(id, ..) => id@,
        Event::PartialFillLimitOrder(id, ..) => id@,
        Event::TradingPairCreated(p) => p@,
    }
}

/// One terminal event, for the submitted order itself.
pub open spec fn is_terminal_event(e: Event) -> bool {
    e is NewLimitOrder || e is FulfilledLimitOrder || e is UnfilledMarketOrder || e is FilledMarketOrder
}

impl Module {
    pub open spec fn wf(&self) -> bool {
        &&& self.ledger.wf()
        &&& forall|i: int| 0 <= i < self.books.len() ==> (#[trigger] self.books@[i]).wf()
        &&& forall|i: int, j: int|
            0 <= i < self.books.len() && 0 <= j < self.books.len() && i != j
                ==> (#[trigger] self.books@[i]).orderbook.trading_pair@ != (#[trigger] self.books@[j]).orderbook.trading_pair@
        &&& forall|i: int, j: int|
            0 <= i < self.market_info.len() && 0 <= j < self.market_info.len() && i != j
                ==> ((#[trigger] self.market_info@[i]).trading_pair@, self.market_info@[i].block)
                    != ((#[trigger] self.market_info@[j]).trading_pair@, self.market_info@[j].block)
    }

    /// The pair is registered.
    pub open spec fn has_pair(&self, pair: Seq<u8>) -> bool {
        exists|i: int| 0 <= i < self.books.len() && (#[trigger] self.books@[i]).orderbook.trading_pair@ == pair
    }

    /// An engine with no pairs and an empty ledger.
    pub fn new(spending_asset_id: AssetId, reservation_fee: u128) -> (r: Module)
        ensures
            r.wf(),
            r.books.len() == 0,
            r.market_info.len() == 0,
            r.nonce == 0,
            r.ledger@ == Map::<(u32, Seq<u8>), (u128, u128)>::empty(),
            r.spending_asset_id == spending_asset_id,
            r.reservation_fee == reservation_fee,
    {
        Module {
            books: Vec::new(),
            market_info: Vec::new(),
            nonce: 0,
            ledger: Ledger::new(),
            spending_asset_id,
            reservation_fee,
        }
    }

    /// Position of the book of `pair`, if registered.
    pub fn find_book(&self, pair: &Id32) -> (r: Option<usize>)
        ensures
            match r {
                Some(i) => i < self.books.len() && self.books@[i as int].orderbook.trading_pair@ == pair@,
                None => !self.has_pair(pair@),
            },
    {
        let mut i: usize = 0;
        while i < self.books.len()
            invariant
                0 <= i <= self.books.len(),
                forall|j: int| 0 <= j < i ==> (#[trigger] self.books@[j]).orderbook.trading_pair@ != pair@,
            decreases self.books.len() - i,
        {
            if crate::ledger::same_id(&self.books[i].orderbook.trading_pair, pair) {
                return Some(i);
            }
            i = i + 1;
        }
        None
    }

    /// Position of the statistics of `pair` for period `block`, if any.
    pub fn find_market(&self, pair: &Id32, block: BlockNumber) -> (r: Option<usize>)
        ensures
            match r {
                Some(i) => i < self.market_info.len() && self.market_info@[i as int].trading_pair@ == pair@
                    && self.market_info@[i as int].block == block,
                None => forall|j: int| 0 <= j < self.market_info.len()
                    ==> !((#[trigger] self.market_info@[j]).trading_pair@ == pair@ && self.market_info@[j].block == block),
            },
    {
        let mut i: usize = 0;
        while i < self.market_info.len()
            invariant
                0 <= i <= self.market_info.len(),
                forall|j: int| 0 <= j < i
                    ==> !((#[trigger] self.market_info@[j]).trading_pair@ == pair@ && self.market_info@[j].block == block),
            decreases self.market_info.len() - i,
        {
            if self.market_info[i].block == block && crate::ledger::same_id(&self.market_info[i].trading_pair, pair) {
                return Some(i);
            }
            i = i + 1;
        }
        None
    }

    /// The book of a registered pair.
    pub open spec fn book_of(&self, pair: Seq<u8>) -> PairBook {
        let i = choose|i: int| 0 <= i < self.books.len() && (#[trigger] self.books@[i]).orderbook.trading_pair@ == pair;
        self.books@[i]
    }

    /// The asset that funds an order of the given type on a registered pair:
    /// the base asset for bids, the quote asset for asks.
    pub open spec fn funding_asset(&self, pair: Seq<u8>, order_type: OrderType) -> u32 {
        if order_type.is_bid() {
            self.book_of(pair).orderbook.base_asset_id
        } else {
            self.book_of(pair).orderbook.quote_asset_id
        }
    }

    proof fn lemma_book_of(&self, i: int)
        requires
            self.wf(),
            0 <= i < self.books.len(),
        ensures
            self.has_pair(self.books@[i].orderbook.trading_pair@),
            self.book_of(self.books@[i].orderbook.trading_pair@) == self.books@[i],
    {
        let pair = self.books@[i].orderbook.trading_pair@;
        assert(self.has_pair(pair));
        let j = choose|j: int| 0 <= j < self.books.len() && (#[trigger] self.books@[j]).orderbook.trading_pair@ == pair;
        if j != i {
            assert(self.books@[i].orderbook.trading_pair@ != self.books@[j].orderbook.trading_pair@);
        }
    }

    proof fn lemma_market_of(&self, j: int)
        requires
            self.wf(),
            0 <= j < self.market_info.len(),
        ensures
            self.market_of(self.market_info@[j].trading_pair@, self.market_info@[j].block) == Some(
                self.market_info@[j].data,
            ),
    {
        let pair = self.market_info@[j].trading_pair@;
        let block = self.market_info@[j].block;
        assert(self.market_info@[j].trading_pair@ == pair && self.market_info@[j].block == block);
        let i = choose|i: int|
            0 <= i < self.market_info.len() && (#[trigger] self.market_info@[i]).trading_pair@ == pair
                && self.market_info@[i].block == block;
        if i != j {
            assert((self.market_info@[i].trading_pair@, self.market_info@[i].block) != (
            self.market_info@[j].trading_pair@, self.market_info@[j].block));
        }
    }

    /// Submits an order of `trader` on a registered pair during period
    /// `block`. The request is validated, the trader's free balance of the
    /// funding asset is checked against the amount the order needs (which a
    /// limit order reserves), the order gets its identifier from the nonce,
    /// which advances, and it is matched against the opposite side. What is
    /// left of a limit order then rests in the book. Returns the events: the
    /// fills of resting orders, then one event for the submitted order. On an
    /// error nothing changes. A market order reserves nothing up front (see
    /// `check_order`), so one of its fills fails with
    /// `ErrorWhileTransferingAsset` when the trader's free balance no longer
    /// covers it. A valid, funded request on a registered pair succeeds
    /// exactly when every fill of its matching does (`submission_ok`).
    #[verifier::rlimit(100)]
    pub fn submit_order(
        &mut self,
        trader: &Id32,
        order_type: OrderType,
        trading_pair: &Id32,
        price: u128,
        quantity: u128,
        block: BlockNumber,
    ) -> (r: Result<Vec<Event>, Error>)
        requires
            old(self).wf(),
        ensures
            final(self).wf(),
            r is Err ==> *final(self) == *old(self),
            request_error(order_type, price, quantity) is Some ==> r == Err::<Vec<Event>, Error>(
                request_error(order_type, price, quantity)->Some_0,
            ),
            request_error(order_type, price, quantity) is None ==> (r == Err::<Vec<Event>, Error>(
                Error::InvalidTradingPair,
            ) <==> !old(self).has_pair(trading_pair@)),
            request_error(order_type, price, quantity) is None && old(self).has_pair(trading_pair@) ==> (r
                == Err::<Vec<Event>, Error>(Error::InternalErrorU128Balance) <==> required_amount(
                order_type,
                price,
                quantity,
            ) > u128::MAX),
            request_error(order_type, price, quantity) is None && old(self).has_pair(trading_pair@)
                && required_amount(order_type, price, quantity) <= u128::MAX ==> (r == Err::<Vec<Event>, Error>(
                Error::InsufficientAssetBalance,
            ) <==> fixed_of_balance(
                old(self).ledger.free_of(old(self).funding_asset(trading_pair@, order_type), trader@),
            ) < required_amount(order_type, price, quantity)),
            request_error(order_type, price, quantity) is None && r is Err ==> !(r->Err_0 is InvalidPriceOrQuantityLimit
                || r->Err_0 is InvalidBidMarketPrice || r->Err_0 is InvalidAskMarketQuantity),
            request_error(order_type, price, quantity) is None && old(self).has_pair(trading_pair@)
                && required_amount(order_type, price, quantity) <= u128::MAX && fixed_of_balance(
                old(self).ledger.free_of(old(self).funding_asset(trading_pair@, order_type), trader@),
            ) >= required_amount(order_type, price, quantity) ==> {
                &&& r is Ok <==> forall|o: Order|
                    o.trading_pair == *trading_pair && o.trader == *trader && o.price == price && o.quantity == quantity
                        && o.order_type == order_type ==> #[trigger] submission_ok(*old(self), o, block)
                &&& r is Err ==> is_settlement_error(r->Err_0)
            },
            r is Ok ==> forall|o: Order|
                o.trading_pair == *trading_pair && o.trader == *trader && o.price == price && o.quantity == quantity
                    && o.order_type == order_type ==> final(self).ledger@ == #[trigger] submission_ledger(*old(self), o),
            r is Ok ==> {
                let events = r->Ok_0@;
                &&& final(self).nonce == next_nonce(old(self).nonce)
                &&& final(self).books.len() == old(self).books.len()
                &&& events.len() > 0
                &&& is_terminal_event(events.last())
                &&& forall|i: int| 0 <= i < events.len() - 1 ==> is_fill_event(#[trigger] events[i])
                &&& event_order_id(events.last()) == blake2_256_of(
                    order_encoding(trading_pair@, trader@, price, quantity, order_type, old(self).nonce),
                )
                &&& final(self).has_pair(trading_pair@)
                &&& exists|o: Order|
                    o.id@ == blake2_256_of(
                        order_encoding(trading_pair@, trader@, price, quantity, order_type, old(self).nonce),
                    ) && o.trading_pair@ == trading_pair@ && o.trader@ == trader@ && o.price == price && o.quantity
                        == quantity && o.order_type == order_type && submitted(
                        old(self).book_of(trading_pair@),
                        final(self).book_of(trading_pair@),
                        o,
                        events,
                    ) && market_recorded(*old(self), *final(self), trading_pair@, block, o)
            },
            r is Ok && r->Ok_0@.last() is UnfilledMarketOrder ==> {
                let b1 = final(self).book_of(trading_pair@);
                if order_type.is_bid() {
                    b1.asks.prices.len() == 0
                } else {
                    b1.bids.prices.len() == 0
                }
            },
    {
        basic_order_checks(order_type, price, quantity)?;
        let idx = match self.find_book(trading_pair) {
            Some(i) => i,
            None => {
                return Err(Error::InvalidTradingPair);
            },
        };
        proof {
            self.lemma_book_of(idx as int);
        }
        let ob = self.books[idx].orderbook;
        let is_bid = order_type.is_bid();
        let mut ledger = self.ledger.copy();
        check_order(&mut ledger, &ob, trader, order_type, price, quantity)?;
        let ghost funded_ledger = ledger;
        let nonce = self.nonce;
        let id = create_order_id(trading_pair, trader, price, quantity, order_type, nonce);
        let mut order = Order { id, trading_pair: *trading_pair, trader: *trader, price, quantity, order_type };
        let ghost orig = self.books@[idx as int];
        let mut book = self.books[idx].copy();
        let ghost b0 = book;
        let ghost order0 = order;
        let mut md = match self.find_market(trading_pair, block) {
            Some(j) => {
                proof {
                    self.lemma_market_of(j as int);
                }
                self.market_info[j].data
            },
            None => MarketData { low: 0, high: 0, volume: 0 },
        };
        let ghost md0 = md;
        assert(md0 == match self.market_of(trading_pair@, block) {
            Some(m) => m,
            None => MarketData { low: 0, high: 0, volume: 0 },
        });
        let mut events: Vec<Event> = Vec::new();
        proof {
            assert(funded_ledger@ == funded(*self, order0));
            assert forall|o: Order|
                o.trading_pair == *trading_pair && o.trader == *trader && o.price == price && o.quantity == quantity
                    && o.order_type == order_type implies #[trigger] submission_ledger(*self, o) == submission_ledger(
                *self,
                order0,
            ) by {
                assert(funded(*self, o) == funded(*self, order0));
                lemma_match_id(
                    side_of(orig, !is_bid).entries(),
                    o,
                    order0,
                    !is_bid,
                    md0,
                    ob.base_asset_id,
                    ob.quote_asset_id,
                    funded_ledger@,
                );
            }
            assert forall|o: Order|
                o.trading_pair == *trading_pair && o.trader == *trader && o.price == price && o.quantity == quantity
                    && o.order_type == order_type implies #[trigger] submission_ok(*self, o, block) == submission_ok(
                *self,
                order0,
                block,
            ) by {
                assert(funded(*self, o) == funded(*self, order0));
                lemma_match_id(
                    side_of(orig, !is_bid).entries(),
                    o,
                    order0,
                    !is_bid,
                    md0,
                    ob.base_asset_id,
                    ob.quote_asset_id,
                    funded_ledger@,
                );
            }
        }
        let placed_r = place_order(&mut book, order, &mut ledger, &mut md);
        match placed_r {
            Ok(v) => {
                events = v;
            },
            Err(e) => {
                assert(!submission_ok(*self, order0, block));
                return Err(e);
            },
        }
        assert(ledger@ == submission_ledger(*self, order0));
        assert(events@.len() == match_events(side_of(orig, !is_bid).entries(), order0, !is_bid).len() + 1);
        let filled = events.len() > 1;
        let ghost pre = *self;
        self.books.set(idx, book);
        assert forall|i: int, j: int|
            0 <= i < self.books.len() && 0 <= j < self.books.len() && i != j
                implies (#[trigger] self.books@[i]).orderbook.trading_pair@ != (#[trigger] self.books@[j]).orderbook.trading_pair@ by {
            assert(pre.books@[i].orderbook.trading_pair@ != pre.books@[j].orderbook.trading_pair@);
        }
        self.ledger = ledger;
        self.nonce = if nonce == u128::MAX {
            0
        } else {
            nonce + 1
        };
        if filled {
            self.record_market_data(trading_pair, block, md);
        }
        proof {
            self.lemma_book_of(idx as int);
            assert(submitted(orig, self.books@[idx as int], order0, events@));
            assert(market_recorded(pre, *self, trading_pair@, block, order0));
        }
        Ok(events)
    }

    /// Stores the statistics of `pair` for period `block`.
    fn record_market_data(&mut self, pair: &Id32, block: BlockNumber, md: MarketData)
        requires
            old(self).wf(),
        ensures
            final(self).wf(),
            final(self).books == old(self).books,
            final(self).ledger == old(self).ledger,
            final(self).nonce == old(self).nonce,
            final(self).spending_asset_id == old(self).spending_asset_id,
            final(self).reservation_fee == old(self).reservation_fee,
            final(self).market_of(pair@, block) == Some(md),
            forall|p2: Seq<u8>, b2: BlockNumber|
                (p2, b2) != (pair@, block) ==> #[trigger] final(self).market_of(p2, b2) == old(self).market_of(p2, b2),
    {
        let ghost pre = *self;
        match self.find_market(pair, block) {
            Some(j) => {
                self.market_info.set(j, MarketEntry { trading_pair: *pair, block, data: md });
                assert forall|a: int, b: int|
                    0 <= a < self.market_info.len() && 0 <= b < self.market_info.len() && a != b
                        implies ((#[trigger] self.market_info@[a]).trading_pair@, self.market_info@[a].block)
                            != ((#[trigger] self.market_info@[b]).trading_pair@, self.market_info@[b].block) by {
                    assert((pre.market_info@[a].trading_pair@, pre.market_info@[a].block)
                        != (pre.market_info@[b].trading_pair@, pre.market_info@[b].block));
                }
                proof {
                    self.lemma_market_of(j as int);
                }
            },
            None => {
                self.market_info.push(MarketEntry { trading_pair: *pair, block, data: md });
                let ghost n = pre.market_info.len() as int;
                assert forall|a: int, b: int|
                    0 <= a < self.market_info.len() && 0 <= b < self.market_info.len() && a != b
                        implies ((#[trigger] self.market_info@[a]).trading_pair@, self.market_info@[a].block)
                            != ((#[trigger] self.market_info@[b]).trading_pair@, self.market_info@[b].block) by {
                    if a < n && b < n {
                        assert((pre.market_info@[a].trading_pair@, pre.market_info@[a].block)
                            != (pre.market_info@[b].trading_pair@, pre.market_info@[b].block));
                    } else if a == n {
                        assert(!(pre.market_info@[b].trading_pair@ == pair@ && pre.market_info@[b].block == block));
                    } else {
                        assert(!(pre.market_info@[a].trading_pair@ == pair@ && pre.market_info@[a].block == block));
                    }
                }
                proof {
                    self.lemma_market_of(n);
                }
            },
        }
        assert forall|p2: Seq<u8>, b2: BlockNumber| (p2, b2) != (pair@, block) implies #[trigger] self.market_of(p2, b2)
            == pre.market_of(p2, b2) by {
            if exists|i: int|
                0 <= i < self.market_info.len() && (#[trigger] self.market_info@[i]).trading_pair@ == p2
                    && self.market_info@[i].block == b2 {
                let i = choose|i: int|
                    0 <= i < self.market_info.len() && (#[trigger] self.market_info@[i]).trading_pair@ == p2
                        && self.market_info@[i].block == b2;
                self.lemma_market_of(i);
                assert(i < pre.market_info.len() && self.market_info@[i] == pre.market_info@[i]);
                pre.lemma_market_of(i);
            } else if exists|i: int|
                0 <= i < pre.market_info.len() && (#[trigger] pre.market_info@[i]).trading_pair@ == p2
                    && pre.market_info@[i].block == b2 {
                let i = choose|i: int|
                    0 <= i < pre.market_info.len() && (#[trigger] pre.market_info@[i]).trading_pair@ == p2
                        && pre.market_info@[i].block == b2;
                assert(self.market_info@[i] == pre.market_info@[i]);
            }
        }
    }

    /// Registers the pair of two distinct assets, reserving the registration
    /// fee in the spending asset from `trader`. The new book is empty.
    pub fn register_new_orderbook(&mut self, trader: &Id32, quote_asset_id: u32, base_asset_id: u32) -> (r: Result<
        Event,
        Error,
    >)
        requires
            old(self).wf(),
        ensures
            final(self).wf(),
            r is Err ==> *final(self) == *old(self),
            (r == Err::<Event, Error>(Error::SameAssetIdsError)) <==> quote_asset_id == base_asset_id,
            quote_asset_id != base_asset_id ==> ((r == Err::<Event, Error>(Error::TradingPairIDExists))
                <==> old(self).has_pair(pair_id_spec(quote_asset_id, base_asset_id))),
            quote_asset_id != base_asset_id && !old(self).has_pair(pair_id_spec(quote_asset_id, base_asset_id))
                ==> ((r == Err::<Event, Error>(Error::InsufficientAssetBalance)) <==> old(self).reservation_fee
                > old(self).ledger.free_of(old(self).spending_asset_id, trader@)),
            quote_asset_id != base_asset_id && !old(self).has_pair(pair_id_spec(quote_asset_id, base_asset_id))
                && old(self).reservation_fee <= old(self).ledger.free_of(old(self).spending_asset_id, trader@) ==> r is Ok,
            r is Ok ==> {
                let pair = pair_id_spec(quote_asset_id, base_asset_id);
                let book = final(self).books@.last();
                &&& r->Ok_0 is TradingPairCreated
                &&& r->Ok_0->TradingPairCreated_0@ == pair
                &&& final(self).books@.drop_last() == old(self).books@
                &&& book.orderbook.trading_pair@ == pair
                &&& book.orderbook.base_asset_id == base_asset_id
                &&& book.orderbook.quote_asset_id == quote_asset_id
                &&& book.orderbook.best_bid_price == 0
                &&& book.orderbook.best_ask_price == 0
                &&& book.asks.prices@.len() == 0
                &&& book.bids.prices@.len() == 0
                &&& final(self).ledger@ == old(self).ledger@.insert(
                    (old(self).spending_asset_id, trader@),
                    (
                        (old(self).ledger.free_of(old(self).spending_asset_id, trader@) - old(self).reservation_fee) as u128,
                        (old(self).ledger.reserved_of(old(self).spending_asset_id, trader@) + old(self).reservation_fee) as u128,
                    ),
                )
                &&& final(self).nonce == old(self).nonce
                &&& final(self).market_info == old(self).market_info
            },
    {
        if quote_asset_id == base_asset_id {
            return Err(Error::SameAssetIdsError);
        }
        let pair = create_trading_pair_id(quote_asset_id, base_asset_id);
        if self.find_book(&pair).is_some() {
            return Err(Error::TradingPairIDExists);
        }
        let mut ledger = self.ledger.copy();
        if ledger.reserve(self.spending_asset_id, trader, self.reservation_fee).is_err() {
            return Err(Error::InsufficientAssetBalance);
        }
        let book = PairBook {
            orderbook: Orderbook::new(base_asset_id, quote_asset_id, pair),
            asks: Ladder::new(),
            bids: Ladder::new(),
        };
        let ghost pre = *self;
        self.books.push(book);
        assert forall|i: int, j: int|
            0 <= i < self.books.len() && 0 <= j < self.books.len() && i != j
                implies (#[trigger] self.books@[i]).orderbook.trading_pair@ != (#[trigger] self.books@[j]).orderbook.trading_pair@ by {
            let n = pre.books.len() as int;
            if i < n && j < n {
                assert(pre.books@[i].orderbook.trading_pair@ != pre.books@[j].orderbook.trading_pair@);
            } else if i == n {
                assert(pre.books@[j].orderbook.trading_pair@ != pair@);
            } else {
                assert(pre.books@[i].orderbook.trading_pair@ != pair@);
            }
        }
        assert(self.books@.drop_last() =~= pre.books@);
        self.ledger = ledger;
        Ok(Event::TradingPairCreated(pair))
    }

    /// Cancels the resting order `order_id` of `trader` at `price` on a
    /// registered pair: it leaves its FIFO (an emptied level leaves the book
    /// and its neighbours are linked to each other), the best prices follow
    /// the sides, and what the order still had reserved is released. On an
    /// error nothing changes.
    #[verifier::rlimit(60)]
    pub fn cancel_order(&mut self, trader: &Id32, order_id: &Id32, trading_pair: &Id32, price: u128) -> (r: Result<
        (),
        Error,
    >)
        requires
            old(self).wf(),
        ensures
            final(self).wf(),
            r is Err ==> *final(self) == *old(self),
            (r == Err::<(), Error>(Error::InvalidTradingPair)) <==> !old(self).has_pair(trading_pair@),
            old(self).has_pair(trading_pair@) ==> ((r == Err::<(), Error>(Error::InvalidOrderID)) <==> !book_has_order(
                old(self).book_of(trading_pair@),
                price,
                order_id@,
            )),
            old(self).has_pair(trading_pair@) ==> ((r == Err::<(), Error>(Error::InvalidOrigin)) <==> exists|
                is_bid: bool,
                k: int,
                j: int,
            |
                #[trigger] first_at(side_of(old(self).book_of(trading_pair@), is_bid), price, order_id@, k, j)
                    && side_of(old(self).book_of(trading_pair@), is_bid).levels@[k].orders@[j].trader@ != trader@),
            old(self).has_pair(trading_pair@) ==> (exists|is_bid: bool, k: int, j: int|
                {
                    let o = side_of(old(self).book_of(trading_pair@), is_bid).levels@[k].orders@[j];
                    &&& #[trigger] first_at(side_of(old(self).book_of(trading_pair@), is_bid), price, order_id@, k, j)
                    &&& o.trader@ == trader@
                    &&& obligation(o) <= u128::MAX
                }) ==> r is Ok,
            r is Err ==> r->Err_0 is InvalidTradingPair || r->Err_0 is InvalidOrderID || r->Err_0 is InvalidOrigin
                || r->Err_0 is MulUnderflowOrOverflow,
            r is Ok ==> {
                &&& book_has_order(old(self).book_of(trading_pair@), price, order_id@)
                &&& final(self).has_pair(trading_pair@)
                &&& exists|is_bid: bool, k: int, j: int|
                    cancelled(
                        old(self).book_of(trading_pair@),
                        final(self).book_of(trading_pair@),
                        is_bid,
                        k,
                        j,
                        price,
                        order_id@,
                        trader@,
                    ) && unreserved_to(
                        old(self).ledger,
                        final(self).ledger,
                        if is_bid {
                            old(self).book_of(trading_pair@).orderbook.base_asset_id
                        } else {
                            old(self).book_of(trading_pair@).orderbook.quote_asset_id
                        },
                        trader@,
                        balance_of_fixed(obligation(side_of(old(self).book_of(trading_pair@), is_bid).levels@[k].orders@[j])),
                    )
                &&& final(self).books.len() == old(self).books.len()
                &&& final(self).nonce == old(self).nonce
                &&& final(self).market_info == old(self).market_info
            },
    {
        let idx = match self.find_book(trading_pair) {
            Some(i) => i,
            None => {
                return Err(Error::InvalidTradingPair);
            },
        };
        proof {
            self.lemma_book_of(idx as int);
        }
        let ghost pair = trading_pair@;
        let ghost pre0 = *self;
        let ob = self.books[idx].orderbook;
        let ghost b0 = self.books@[idx as int];
        proof {
            lemma_separated_of_best(b0.bids.prices@, b0.asks.prices@);
        }
        let (is_bid, k, j) = match locate(&self.books[idx].asks, false, Ghost(pair), price, order_id) {
            Some((k, j)) => (false, k, j),
            None => match locate(&self.books[idx].bids, true, Ghost(pair), price, order_id) {
                Some((k, j)) => (true, k, j),
                None => {
                    return Err(Error::InvalidOrderID);
                },
            },
        };
        let o = if is_bid {
            self.books[idx].bids.levels[k].orders[j]
        } else {
            self.books[idx].asks.levels[k].orders[j]
        };
        proof {
            if is_bid {
                assert(resting_ok(b0.bids.levels@[k as int].orders@[j as int], b0.bids.prices@[k as int], true, pair));
            } else {
                assert(resting_ok(b0.asks.levels@[k as int].orders@[j as int], b0.asks.prices@[k as int], false, pair));
            }
        }
        if !crate::ledger::same_id(&o.trader, trader) {
            return Err(Error::InvalidOrigin);
        }
        if !crate::ledger::same_id(&o.trading_pair, trading_pair) {
            return Err(Error::TradingPairMismatch);
        }
        if o.price != price {
            return Err(Error::CancelPriceDoesntMatch);
        }
        let (asset, owed) = if is_bid {
            match checked_mul(o.price, o.quantity) {
                Some(v) => (ob.base_asset_id, v),
                None => {
                    return Err(Error::MulUnderflowOrOverflow);
                },
            }
        } else {
            (ob.quote_asset_id, o.quantity)
        };
        let mut book = self.books[idx].copy();
        assert(book.bids.entries()[k as int].1.len() == b0.bids.entries()[k as int].1.len() || !is_bid);
        assert(book.asks.entries()[k as int].1.len() == b0.asks.entries()[k as int].1.len() || is_bid);
        if is_bid {
            book.bids.remove_order(k, j, true, Ghost(pair));
        } else {
            book.asks.remove_order(k, j, false, Ghost(pair));
        }
        assert forall|x: u128| #[trigger] book.bids.prices@.contains(x) implies b0.bids.prices@.contains(x) by {
            if is_bid && book.bids.prices@.contains(x) {
                let i = choose|i: int| 0 <= i < book.bids.prices.len() && book.bids.prices@[i] == x;
                if b0.bids.levels@[k as int].orders.len() == 1 {
                    if i < k {
                        assert(b0.bids.prices@[i] == x);
                    } else {
                        assert(b0.bids.prices@[i + 1] == x);
                    }
                } else {
                    assert(b0.bids.prices@[i] == x);
                }
            }
        }
        assert forall|x: u128| #[trigger] book.asks.prices@.contains(x) implies b0.asks.prices@.contains(x) by {
            if !is_bid && book.asks.prices@.contains(x) {
                let i = choose|i: int| 0 <= i < book.asks.prices.len() && book.asks.prices@[i] == x;
                if b0.asks.levels@[k as int].orders.len() == 1 {
                    if i < k {
                        assert(b0.asks.prices@[i] == x);
                    } else {
                        assert(b0.asks.prices@[i + 1] == x);
                    }
                } else {
                    assert(b0.asks.prices@[i] == x);
                }
            }
        }
        assert(separated(book.bids.prices@, book.asks.prices@));
        proof {
            lemma_best_of_separated(book.bids.prices@, book.asks.prices@);
        }
        book.orderbook.best_ask_price = book.asks.best(false);
        book.orderbook.best_bid_price = book.bids.best(true);
        let mut ledger = self.ledger.copy();
        let ghost l0 = ledger;
        assert(owed as int == obligation(side_of(b0, is_bid).levels@[k as int].orders@[j as int]));
        ledger.unreserve(asset, trader, convert_fixed_u128_to_balance(owed));
        assert(unreserved_to(pre0.ledger, ledger, asset, trader@, balance_of_fixed(owed as int)));
        let ghost pre = *self;
        self.books.set(idx, book);
        assert forall|a: int, b: int|
            0 <= a < self.books.len() && 0 <= b < self.books.len() && a != b
                implies (#[trigger] self.books@[a]).orderbook.trading_pair@ != (#[trigger] self.books@[b]).orderbook.trading_pair@ by {
            assert(pre.books@[a].orderbook.trading_pair@ != pre.books@[b].orderbook.trading_pair@);
        }
        self.ledger = ledger;
        proof {
            self.lemma_book_of(idx as int);
            assert(self.book_of(pair) == book);
            assert(cancelled(pre0.book_of(pair), self.book_of(pair), is_bid, k as int, j as int, price, order_id@, trader@));
            assert(unreserved_to(
                pre0.ledger,
                self.ledger,
                if is_bid {
                    pre0.book_of(pair).orderbook.base_asset_id
                } else {
                    pre0.book_of(pair).orderbook.quote_asset_id
                },
                trader@,
                balance_of_fixed(obligation(side_of(pre0.book_of(pair), is_bid).levels@[k as int].orders@[j as int])),
            ));
        }
        Ok(())
    }

    /// The statistics of `pair` for period `block`, if any trade happened then.
    pub open spec fn market_of(&self, pair: Seq<u8>, block: BlockNumber) -> Option<MarketData> {
        market_in(self.market_info@, pair, block)
    }

    /// The active ask prices of `pair`, ascending; empty for an unknown pair.
    pub fn get_ask_level(&self, trading_pair: &Id32) -> (r: Vec<u128>)
        requires
            self.wf(),
        ensures
            self.has_pair(trading_pair@) ==> r@ == self.book_of(trading_pair@).asks.prices@,
            !self.has_pair(trading_pair@) ==> r@.len() == 0,
    {
        match self.find_book(trading_pair) {
            Some(i) => {
                proof {
                    self.lemma_book_of(i as int);
                }
                self.books[i].asks.prices.clone()
            },
            None => Vec::new(),
        }
    }

    /// The active bid prices of `pair`, ascending (the best is the last);
    /// empty for an unknown pair.
    pub fn get_bid_level(&self, trading_pair: &Id32) -> (r: Vec<u128>)
        requires
            self.wf(),
        ensures
            self.has_pair(trading_pair@) ==> r@ == self.book_of(trading_pair@).bids.prices@,
            !self.has_pair(trading_pair@) ==> r@.len() == 0,
    {
        match self.find_book(trading_pair) {
            Some(i) => {
                proof {
                    self.lemma_book_of(i as int);
                }
                self.books[i].bids.prices.clone()
            },
            None => Vec::new(),
        }
    }

    /// The price levels of `pair`, asks then bids, each side ascending, as
    /// the read views show them; empty for an unknown pair.
    pub fn get_price_level(&self, trading_pair: &Id32) -> (r: Vec<LinkedPriceLevelRpc>)
        requires
            self.wf(),
        ensures
            self.has_pair(trading_pair@) ==> levels_rpc_of(r@, self.book_of(trading_pair@)),
            !self.has_pair(trading_pair@) ==> r@.len() == 0,
    {
        let mut out: Vec<LinkedPriceLevelRpc> = Vec::new();
        match self.find_book(trading_pair) {
            Some(b) => {
                proof {
                    self.lemma_book_of(b as int);
                }
                let book = &self.books[b];
                let mut i: usize = 0;
                while i < book.asks.levels.len()
                    invariant
                        0 <= i <= book.asks.levels.len(),
                        out@.len() == i,
                        forall|j: int| 0 <= j < i ==> level_rpc_of(#[trigger] out@[j], book.asks.levels@[j]),
                    decreases book.asks.levels.len() - i,
                {
                    out.push(book.asks.levels[i].covert());
                    i = i + 1;
                }
                let mut i: usize = 0;
                while i < book.bids.levels.len()
                    invariant
                        0 <= i <= book.bids.levels.len(),
                        out@.len() == book.asks.levels.len() + i,
                        forall|j: int| 0 <= j < book.asks.levels.len() ==> level_rpc_of(#[trigger] out@[j], book.asks.levels@[j]),
                        forall|j: int| 0 <= j < i ==> level_rpc_of(#[trigger] out@[book.asks.levels.len() + j], book.bids.levels@[j]),
                    decreases book.bids.levels.len() - i,
                {
                    out.push(book.bids.levels[i].covert());
                    i = i + 1;
                }
            },
            None => {},
        }
        out
    }

    /// The record of `pair` as the read views show it; the default record for
    /// an unknown pair.
    pub fn get_orderbook(&self, trading_pair: &Id32) -> (r: OrderbookRpc)
        requires
            self.wf(),
        ensures
            self.has_pair(trading_pair@) ==> orderbook_rpc_of(r, self.book_of(trading_pair@).orderbook),
            !self.has_pair(trading_pair@) ==> r.trading_pair@ == seq![0u8; 32] && r.base_asset_id == 0
                && r.quote_asset_id == 0 && r.best_bid_price == 0 && r.best_ask_price == 0,
    {
        match self.find_book(trading_pair) {
            Some(i) => {
                proof {
                    self.lemma_book_of(i as int);
                }
                self.books[i].orderbook.convert()
            },
            None => {
                let d = Orderbook::default();
                let r = d.convert();
                assert(balance_of_fixed(0) == 0);
                r
            },
        }
    }

    /// The records of all pairs, in order of registration.
    pub fn get_all_orderbook(&self) -> (r: Vec<OrderbookRpc>)
        ensures
            r@.len() == self.books.len(),
            forall|i: int| 0 <= i < self.books.len() ==> orderbook_rpc_of(#[trigger] r@[i], self.books@[i].orderbook),
    {
        let mut out: Vec<OrderbookRpc> = Vec::new();
        let mut i: usize = 0;
        while i < self.books.len()
            invariant
                0 <= i <= self.books.len(),
                out@.len() == i,
                forall|j: int| 0 <= j < i ==> orderbook_rpc_of(#[trigger] out@[j], self.books@[j].orderbook),
            decreases self.books.len() - i,
        {
            out.push(self.books[i].orderbook.convert());
            i = i + 1;
        }
        out
    }

    /// The statistics of `pair` for period `blocknum` as the read views show
    /// them; `None` when nothing traded then.
    pub fn get_market_info(&self, trading_pair: &Id32, blocknum: u32) -> (r: Option<MarketDataRpc>)
        requires
            self.wf(),
        ensures
            match self.market_of(trading_pair@, blocknum) {
                Some(md) => r is Some && market_rpc_of(r->Some_0, md),
                None => r is None,
            },
    {
        let block = Self::u32_to_blocknum(blocknum);
        match self.find_market(trading_pair, block) {
            Some(j) => {
                proof {
                    let i = choose|i: int|
                        0 <= i < self.market_info.len() && (#[trigger] self.market_info@[i]).trading_pair@ == trading_pair@
                            && self.market_info@[i].block == block;
                    if i != j as int {
                        assert((self.market_info@[i].trading_pair@, self.market_info@[i].block)
                            != (self.market_info@[j as int].trading_pair@, self.market_info@[j as int].block));
                    }
                }
                Some(self.market_info[j].data.convert())
            },
            None => None,
        }
    }

    /// The period identifier for a block height.
    pub fn u32_to_blocknum(input: u32) -> (r: BlockNumber)
        ensures
            r == input,
    {
        input
    }

    /// The asset identifier for an integer.
    pub fn u32_to_asset_id(input: u32) -> (r: AssetId)
        ensures
            r == input,
    {
        input
    }

    /// The report of a fill that leaves the resting `order` in the book;
    /// `filled_amount` is the quote quantity traded.
    pub fn emit_partial_fill(order: &Order, filled_amount: u128) -> (r: Event)
        ensures
            r == Event::PartialFillLimitOrder(
                order.id,
                order.trading_pair,
                order.order_type,
                order.price,
                filled_amount,
                order.trader,
            ),
    {
        Event::PartialFillLimitOrder(order.id, order.trading_pair, order.order_type, order.price, filled_amount, order.trader)
    }

    /// The report of a fill that completes the resting `order`.
    pub fn emit_complete_fill(order: &Order, filled_amount: u128) -> (r: Event)
        ensures
            r == Event::FulfilledLimitOrder(
                order.id,
                order.trading_pair,
                order.order_type,
                order.price,
                filled_amount,
                order.trader,
            ),
    {
        Event::FulfilledLimitOrder(order.id, order.trading_pair, order.order_type, order.price, filled_amount, order.trader)
    }

    /// The engine amount standing for a ledger balance.
    pub fn convert_balance_to_fixed_u128(x: u128) -> (r: Option<u128>)
        ensures
            r == Some(fixed_of_balance(x as int) as u128),
    {
        Some(convert_balance_to_fixed_u128(x))
    }

    /// The ledger balance standing for an engine amount.
    pub fn convert_fixed_u128_to_balance(x: u128) -> (r: Option<u128>)
        ensures
            r == Some(balance_of_fixed(x as int) as u128),
    {
        Some(convert_fixed_u128_to_balance(x))
    }
}

} // verus!
