//! Settlement of one fill between an incoming order and a resting one: the
//! amounts traded at the resting order's price, the ledger transfers and the
//! period's market statistics.
use vstd::prelude::*;

verus! {

use crate::fixed::{balance_of_fixed, checked_div, checked_mul, convert_fixed_u128_to_balance, div_inner, mul_inner};
use crate::ledger::{map_free, map_reserved, Balances, Id32, Ledger};
use crate::types::{Error, MarketData, Order, OrderType};

/// Smaller of two integers.
pub open spec fn min_int(a: int, b: int) -> int {
    if a <= b {
        a
    } else {
        b
    }
}

/// Quote quantity that changes hands when `taker` meets `maker`.
pub open spec fn fill_quote(taker: Order, maker: Order) -> int {
    if taker.order_type is BidMarket {
        min_int(div_inner(taker.price as int, maker.price as int), maker.quantity as int)
    } else {
        min_int(taker.quantity as int, maker.quantity as int)
    }
}

/// Base amount that changes hands when `taker` meets `maker`: the quote
/// quantity at the maker's price, or all that is left of a bid market
/// order's budget when it does not buy out the maker.
pub open spec fn fill_base(taker: Order, maker: Order) -> int {
    if taker.order_type is BidMarket && div_inner(taker.price as int, maker.price as int)
        <= maker.quantity {
        taker.price as int
    } else {
        mul_inner(maker.price as int, fill_quote(taker, maker))
    }
}

/// The statistics of a period after a trade at price `p` moving `base`.
pub open spec fn market_after(md: MarketData, p: u128, base: int) -> (MarketData, bool) {
    let low = if md.low == 0 || p < md.low {
        p
    } else {
        md.low
    };
    let high = if md.high == 0 || p > md.high {
        p
    } else {
        md.high
    };
    (MarketData { low, high, volume: (md.volume + base) as u128 }, md.volume + base <= u128::MAX)
}

/// Every key but the two given keeps its entry.
pub open spec fn others_unchanged(a: Ledger, b: Ledger, k1: (u32, Seq<u8>), k2: (u32, Seq<u8>)) -> bool {
    forall|k: (u32, Seq<u8>)|
        #![trigger b@.contains_key(k)]
        #![trigger a@.contains_key(k)]
        k != k1 && k != k2 ==> b@.contains_key(k) == a@.contains_key(k) && (a@.contains_key(k) ==> b@[k] == a@[k])
}

/// What releasing up to `release` of the reserve under `k` frees.
pub open spec fn released(m: Balances, k: (u32, Seq<u8>), release: int) -> int {
    if release <= map_reserved(m, k) {
        release
    } else {
        map_reserved(m, k)
    }
}

/// A transfer of `amt` from `from` to `to` after releasing up to `release`
/// of what `from` has reserved goes through: the payer's free balance then
/// covers it and the payee's holding stays within `u128`.
pub open spec fn transfer_ok(m: Balances, asset: u32, from: Seq<u8>, to: Seq<u8>, amt: int, release: int) -> bool {
    &&& amt <= map_free(m, (asset, from)) + released(m, (asset, from), release)
    &&& from == to || map_free(m, (asset, to)) + map_reserved(m, (asset, to)) + amt <= u128::MAX
}

/// The balances after releasing up to `release` of what `from` has reserved
/// and then moving `amt` from its free balance to that of `to`.
pub open spec fn settle_map(m: Balances, asset: u32, from: Seq<u8>, to: Seq<u8>, amt: int, release: int) -> Balances {
    let kf = (asset, from);
    let kt = (asset, to);
    let mv = released(m, kf, release);
    let m1 = if m.contains_key(kf) {
        m.insert(kf, ((map_free(m, kf) + mv) as u128, (map_reserved(m, kf) - mv) as u128))
    } else {
        m
    };
    if from == to {
        m1
    } else {
        m1.insert(kf, ((map_free(m1, kf) - amt) as u128, map_reserved(m1, kf) as u128)).insert(
            kt,
            ((map_free(m1, kt) + amt) as u128, map_reserved(m1, kt) as u128),
        )
    }
}

/// Moves the ledger balance standing for the engine amount `amount` of
/// `asset` from `from` to `to`, after releasing up to `release` (a ledger
/// balance) of what `from` has reserved for this payment; 0 for a payer
/// that pays from its free balance.
pub fn transfer_asset(
    ledger: &mut Ledger,
    asset: u32,
    amount: u128,
    release: u128,
    from: &Id32,
    to: &Id32,
) -> (r: Result<(), Error>)
    requires
        old(ledger).wf(),
    ensures
        final(ledger).wf(),
        r is Ok <==> transfer_ok(old(ledger)@, asset, from@, to@, balance_of_fixed(amount as int), release as int),
        r is Err ==> r == Err::<(), Error>(Error::ErrorWhileTransferingAsset),
        r is Ok ==> final(ledger)@ == settle_map(
            old(ledger)@,
            asset,
            from@,
            to@,
            balance_of_fixed(amount as int),
            release as int,
        ),
        r is Ok ==> {
            let amt = balance_of_fixed(amount as int);
            &&& others_unchanged(*old(ledger), *final(ledger), (asset, from@), (asset, to@))
            &&& from@ != to@ ==> final(ledger).holding(asset, from@) == old(ledger).holding(asset, from@) - amt
            &&& from@ != to@ ==> final(ledger).holding(asset, to@) == old(ledger).holding(asset, to@) + amt
            &&& from@ == to@ ==> final(ledger).holding(asset, to@) == old(ledger).holding(asset, to@)
        },
{
    let amt = convert_fixed_u128_to_balance(amount);
    let ghost pre = *ledger;
    proof {
        pre.lemma_bounded(asset, from@);
    }
    ledger.unreserve(asset, from, release);
    let ghost mid = *ledger;
    assert(mid.holding(asset, from@) == pre.holding(asset, from@));
    assert(mid.holding(asset, to@) == pre.holding(asset, to@));
    assert(from@ != to@ ==> mid.free_of(asset, to@) == pre.free_of(asset, to@) && mid.reserved_of(asset, to@)
        == pre.reserved_of(asset, to@));
    match ledger.make_transfer(asset, from, to, amt) {
        Ok(()) => {
            assert(ledger@ =~= settle_map(pre@, asset, from@, to@, amt as int, release as int));
            Ok(())
        },
        Err(()) => Err(Error::ErrorWhileTransferingAsset),
    }
}

/// Of `asset`, `payer` paid `amt` to `payee` between `a` and `b`.
pub open spec fn paid(a: Ledger, b: Ledger, asset: u32, payer: Seq<u8>, payee: Seq<u8>, amt: int) -> bool {
    if payer != payee {
        &&& b.holding(asset, payer) == a.holding(asset, payer) - amt
        &&& b.holding(asset, payee) == a.holding(asset, payee) + amt
    } else {
        b.holding(asset, payer) == a.holding(asset, payer)
    }
}

/// An error that can stop a fill: arithmetic out of range or a failed transfer.
pub open spec fn is_settlement_error(e: Error) -> bool {
    e is MulUnderflowOrOverflow || e is DivUnderflowOrOverflow || e is AddUnderflowOrOverflow
        || e is SubUnderflowOrOverflow || e is ErrorWhileTransferingAsset
}

/// Each fill conserves every asset: what the paying side of a transfer
/// loses, the receiving side gains, so the two accounts hold together after
/// the fill what they held before. `do_asset_exchange` states `paid` for
/// both assets of the pair, in opposite directions between taker and maker,
/// and leaves every other account alone.
pub proof fn lemma_fill_conserves(a: Ledger, b: Ledger, asset: u32, payer: Seq<u8>, payee: Seq<u8>, amt: int)
    requires
        paid(a, b, asset, payer, payee, amt),
    ensures
        payer != payee ==> b.holding(asset, payer) - a.holding(asset, payer) == -(b.holding(asset, payee)
            - a.holding(asset, payee)),
        b.holding(asset, payer) + b.holding(asset, payee) == a.holding(asset, payer) + a.holding(asset, payee),
{
}

/// Every key outside the four given keeps its entry.
pub open spec fn others_unchanged4(
    a: Ledger,
    b: Ledger,
    k1: (u32, Seq<u8>),
    k2: (u32, Seq<u8>),
    k3: (u32, Seq<u8>),
    k4: (u32, Seq<u8>),
) -> bool {
    forall|k: (u32, Seq<u8>)|
        k != k1 && k != k2 && k != k3 && k != k4 ==> (#[trigger] b@.contains_key(k) == a@.contains_key(k))
            && (a@.contains_key(k) ==> b@[k] == a@[k])
}

/// The error that stops a fill of `taker` against `maker` before any
/// transfer, if any: the quantity a bid market budget buys does not fit
/// (division), the base amount or the taker's reserved share does not fit
/// (product), the period's volume overflows (addition), or a bid market
/// order's budget falls short of the base amount (subtraction).
pub open spec fn fill_error(taker: Order, maker: Order, md: MarketData) -> Option<Error> {
    let q = fill_quote(taker, maker);
    let b = fill_base(taker, maker);
    if taker.order_type is BidMarket && div_inner(taker.price as int, maker.price as int) > u128::MAX {
        Some(Error::DivUnderflowOrOverflow)
    } else if b > u128::MAX {
        Some(Error::MulUnderflowOrOverflow)
    } else if taker.order_type is BidLimit && mul_inner(taker.price as int, q) > u128::MAX {
        Some(Error::MulUnderflowOrOverflow)
    } else if md.volume + b > u128::MAX {
        Some(Error::AddUnderflowOrOverflow)
    } else if taker.order_type is BidMarket && b > taker.price {
        Some(Error::SubUnderflowOrOverflow)
    } else {
        None
    }
}

/// What the taker releases of its reservation for a fill, as a ledger
/// balance: a bid limit order what the filled quantity reserved at its limit
/// price (any saving at a better price becomes free), an ask limit order the
/// filled quantity, a market order nothing (it reserved nothing).
pub open spec fn taker_release(taker: Order, maker: Order) -> int {
    if taker.order_type is BidLimit {
        balance_of_fixed(mul_inner(taker.price as int, fill_quote(taker, maker)))
    } else if taker.order_type is AskLimit {
        balance_of_fixed(fill_quote(taker, maker))
    } else {
        0
    }
}

/// The balances after the base leg of a fill: the buyer pays the base amount.
pub open spec fn base_leg(taker: Order, maker: Order, base: u32, m: Balances) -> Balances {
    let b = balance_of_fixed(fill_base(taker, maker));
    if taker.order_type.is_bid() {
        settle_map(m, base, taker.trader@, maker.trader@, b, taker_release(taker, maker))
    } else {
        settle_map(m, base, maker.trader@, taker.trader@, b, b)
    }
}

/// The base leg goes through.
pub open spec fn base_leg_ok(taker: Order, maker: Order, base: u32, m: Balances) -> bool {
    let b = balance_of_fixed(fill_base(taker, maker));
    if taker.order_type.is_bid() {
        transfer_ok(m, base, taker.trader@, maker.trader@, b, taker_release(taker, maker))
    } else {
        transfer_ok(m, base, maker.trader@, taker.trader@, b, b)
    }
}

/// The balances after the quote leg of a fill: the seller delivers the quote
/// quantity.
pub open spec fn quote_leg(taker: Order, maker: Order, quote: u32, m: Balances) -> Balances {
    let q = balance_of_fixed(fill_quote(taker, maker));
    if taker.order_type.is_bid() {
        settle_map(m, quote, maker.trader@, taker.trader@, q, q)
    } else {
        settle_map(m, quote, taker.trader@, maker.trader@, q, taker_release(taker, maker))
    }
}

/// The quote leg goes through.
pub open spec fn quote_leg_ok(taker: Order, maker: Order, quote: u32, m: Balances) -> bool {
    let q = balance_of_fixed(fill_quote(taker, maker));
    if taker.order_type.is_bid() {
        transfer_ok(m, quote, maker.trader@, taker.trader@, q, q)
    } else {
        transfer_ok(m, quote, taker.trader@, maker.trader@, q, taker_release(taker, maker))
    }
}

/// A fill succeeds: its arithmetic fits and both legs go through.
pub open spec fn fill_ok(taker: Order, maker: Order, md: MarketData, base: u32, quote: u32, m: Balances) -> bool {
    &&& fill_error(taker, maker, md) is None
    &&& base_leg_ok(taker, maker, base, m)
    &&& quote_leg_ok(taker, maker, quote, base_leg(taker, maker, base, m))
}

/// The balances after a fill.
pub open spec fn fill_ledger(taker: Order, maker: Order, base: u32, quote: u32, m: Balances) -> Balances {
    quote_leg(taker, maker, quote, base_leg(taker, maker, base, m))
}

/// A fill of `taker` against the resting `maker`, at the maker's price: the
/// quote quantity is the smaller of what the taker still wants (for a bid
/// market order, what its budget buys) and what the maker offers. The buyer
/// pays the base amount and receives the quote quantity. Each payer first
/// releases what it reserved for the payment: the maker its share at its own
/// price, a limit taker its share at its limit price; a market taker pays
/// from its free balance. The period's low, high and volume are updated.
/// Returns the quote quantity traded. It fails exactly when `fill_ok` does
/// not hold, with the error `fill_error` names or, for a leg that does not go
/// through, `ErrorWhileTransferingAsset`.
pub fn do_asset_exchange(
    taker: &mut Order,
    maker: &mut Order,
    market_data: &mut MarketData,
    base_asset_id: u32,
    quote_asset_id: u32,
    ledger: &mut Ledger,
) -> (r: Result<u128, Error>)
    requires
        old(ledger).wf(),
        base_asset_id != quote_asset_id,
        old(maker).price > 0,
        old(maker).quantity > 0,
    ensures
        final(ledger).wf(),
        r is Ok <==> fill_ok(*old(taker), *old(maker), *old(market_data), base_asset_id, quote_asset_id, old(ledger)@),
        r is Err ==> r->Err_0 == match fill_error(*old(taker), *old(maker), *old(market_data)) {
            Some(e) => e,
            None => Error::ErrorWhileTransferingAsset,
        },
        r is Err ==> is_settlement_error(r->Err_0),
        r is Ok ==> {
            let t = *old(taker);
            let m = *old(maker);
            let q = fill_quote(t, m);
            let b = fill_base(t, m);
            let base_amt = balance_of_fixed(b);
            let quote_amt = balance_of_fixed(q);
            &&& r->Ok_0 == q
            &&& *final(maker) == Order { quantity: (m.quantity - q) as u128, ..m }
            &&& t.order_type is BidMarket ==> *final(taker) == Order { price: (t.price - b) as u128, ..t }
            &&& !(t.order_type is BidMarket) ==> *final(taker) == Order { quantity: (t.quantity - q) as u128, ..t }
            &&& market_after(*old(market_data), m.price, b).1
            &&& *final(market_data) == market_after(*old(market_data), m.price, b).0
            &&& final(ledger)@ == fill_ledger(t, m, base_asset_id, quote_asset_id, old(ledger)@)
            &&& t.order_type.is_bid() ==> paid(*old(ledger), *final(ledger), base_asset_id, t.trader@, m.trader@, base_amt)
            &&& t.order_type.is_bid() ==> paid(*old(ledger), *final(ledger), quote_asset_id, m.trader@, t.trader@, quote_amt)
            &&& !t.order_type.is_bid() ==> paid(*old(ledger), *final(ledger), base_asset_id, m.trader@, t.trader@, base_amt)
            &&& !t.order_type.is_bid() ==> paid(*old(ledger), *final(ledger), quote_asset_id, t.trader@, m.trader@, quote_amt)
            &&& others_unchanged4(
                *old(ledger),
                *final(ledger),
                (base_asset_id, t.trader@),
                (base_asset_id, m.trader@),
                (quote_asset_id, t.trader@),
                (quote_asset_id, m.trader@),
            )
        },
{
    let t = *taker;
    let m = *maker;
    let p = m.price;
    let (q, b) = if t.order_type == OrderType::BidMarket {
        let afford = match checked_div(t.price, p) {
            Some(v) => v,
            None => {
                return Err(Error::DivUnderflowOrOverflow);
            },
        };
        if afford <= m.quantity {
            (afford, t.price)
        } else {
            match checked_mul(p, m.quantity) {
                Some(v) => (m.quantity, v),
                None => {
                    return Err(Error::MulUnderflowOrOverflow);
                },
            }
        }
    } else {
        let q = if t.quantity <= m.quantity {
            t.quantity
        } else {
            m.quantity
        };
        match checked_mul(p, q) {
            Some(v) => (q, v),
            None => {
                return Err(Error::MulUnderflowOrOverflow);
            },
        }
    };
    assert(q == fill_quote(t, m));
    assert(b == fill_base(t, m));
    let release: u128 = if t.order_type == OrderType::BidLimit {
        match checked_mul(t.price, q) {
            Some(v) => convert_fixed_u128_to_balance(v),
            None => {
                return Err(Error::MulUnderflowOrOverflow);
            },
        }
    } else if t.order_type == OrderType::AskLimit {
        convert_fixed_u128_to_balance(q)
    } else {
        0
    };
    assert(release == taker_release(t, m));
    let volume = match market_data.volume.checked_add(b) {
        Some(v) => v,
        None => {
            return Err(Error::AddUnderflowOrOverflow);
        },
    };
    let new_taker = if t.order_type == OrderType::BidMarket {
        if b > t.price {
            return Err(Error::SubUnderflowOrOverflow);
        }
        Order { price: t.price - b, ..t }
    } else {
        Order { quantity: t.quantity - q, ..t }
    };
    assert(fill_error(t, m, *market_data) is None);
    let ghost l0 = *ledger;
    let bb = convert_fixed_u128_to_balance(b);
    let qb = convert_fixed_u128_to_balance(q);
    if t.order_type.is_bid() {
        transfer_asset(ledger, base_asset_id, b, release, &t.trader, &m.trader)?;
        let ghost l1 = *ledger;
        transfer_asset(ledger, quote_asset_id, q, qb, &m.trader, &t.trader)?;
        proof {
            lemma_two_transfers(l0, l1, *ledger, base_asset_id, quote_asset_id, t.trader@, m.trader@);
        }
    } else {
        transfer_asset(ledger, base_asset_id, b, bb, &m.trader, &t.trader)?;
        let ghost l1 = *ledger;
        transfer_asset(ledger, quote_asset_id, q, release, &t.trader, &m.trader)?;
        proof {
            lemma_two_transfers(l0, l1, *ledger, base_asset_id, quote_asset_id, t.trader@, m.trader@);
        }
    }
    let low = if market_data.low == 0 || p < market_data.low {
        p
    } else {
        market_data.low
    };
    let high = if market_data.high == 0 || p > market_data.high {
        p
    } else {
        market_data.high
    };
    *market_data = MarketData { low, high, volume };
    *maker = Order { quantity: m.quantity - q, ..m };
    *taker = new_taker;
    Ok(q)
}

/// Two transfers, one of each asset between the same two accounts, leave
/// every other key alone, and the second leaves the first asset's holdings.
proof fn lemma_two_transfers(
    l0: Ledger,
    l1: Ledger,
    l2: Ledger,
    base: u32,
    quote: u32,
    t: Seq<u8>,
    m: Seq<u8>,
)
    requires
        base != quote,
        others_unchanged(l0, l1, (base, t), (base, m)) || others_unchanged(l0, l1, (base, m), (base, t)),
        others_unchanged(l1, l2, (quote, m), (quote, t)) || others_unchanged(l1, l2, (quote, t), (quote, m)),
    ensures
        others_unchanged4(l0, l2, (base, t), (base, m), (quote, t), (quote, m)),
        l2.holding(base, t) == l1.holding(base, t),
        l2.holding(base, m) == l1.holding(base, m),
        l1.holding(quote, t) == l0.holding(quote, t),
        l1.holding(quote, m) == l0.holding(quote, m),
{
    assert(l2@.contains_key((base, t)) == l1@.contains_key((base, t)));
    assert(l2@.contains_key((base, m)) == l1@.contains_key((base, m)));
    assert(l1@.contains_key((quote, t)) == l0@.contains_key((quote, t)));
    assert(l1@.contains_key((quote, m)) == l0@.contains_key((quote, m)));
    assert forall|k: (u32, Seq<u8>)|
        k != (base, t) && k != (base, m) && k != (quote, t) && k != (quote, m) implies (
        #[trigger] l2@.contains_key(k) == l0@.contains_key(k)) && (l0@.contains_key(k) ==> l2@[k] == l0@[k]) by {
        assert(k != (base, t) && k != (base, m));
        assert(k != (quote, m) && k != (quote, t));
        assert(l1@.contains_key(k) == l0@.contains_key(k) && (l0@.contains_key(k) ==> l1@[k] == l0@[k]));
        assert(l2@.contains_key(k) == l1@.contains_key(k) && (l1@.contains_key(k) ==> l2@[k] == l1@[k]));
    }
    assert(others_unchanged4(l0, l2, (base, t), (base, m), (quote, t), (quote, m)));
}

} // verus!
