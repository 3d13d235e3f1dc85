//! One side of a pair's book: the sorted active prices and, at each, the
//! FIFO of resting orders with the links to the neighbouring prices.
use vstd::prelude::*;

verus! {

use crate::types::{LinkedPriceLevel, Order, OrderType};

/// Strictly ascending.
pub open spec fn sorted(s: Seq<u128>) -> bool {
    forall|i: int, j: int| 0 <= i < j < s.len() ==> s[i] < s[j]
}

/// The price one position lower, if any.
pub open spec fn lower(s: Seq<u128>, i: int) -> Option<u128> {
    if i > 0 {
        Some(s[i - 1])
    } else {
        None
    }
}

/// The price one position higher, if any.
pub open spec fn upper(s: Seq<u128>, i: int) -> Option<u128> {
    if i + 1 < s.len() {
        Some(s[i + 1])
    } else {
        None
    }
}

/// The order type of the resting orders of a side.
pub open spec fn side_type(is_bid: bool) -> OrderType {
    if is_bid {
        OrderType::BidLimit
    } else {
        OrderType::AskLimit
    }
}

/// The links of a level at position `i`: `next` walks away from the best
/// price, which is the highest on the bid side and the lowest on the ask side.
pub open spec fn links_ok(l: LinkedPriceLevel, s: Seq<u128>, i: int, is_bid: bool) -> bool {
    if is_bid {
        l.prev == upper(s, i) && l.next == lower(s, i)
    } else {
        l.prev == lower(s, i) && l.next == upper(s, i)
    }
}

/// A resting order of this side at price `p`.
pub open spec fn resting_ok(o: Order, p: u128, is_bid: bool, pair: Seq<u8>) -> bool {
    &&& o.price == p
    &&& o.quantity > 0
    &&& o.order_type == side_type(is_bid)
    &&& o.trading_pair@ == pair
}

/// `b` is `a` with `o` placed: at the back of the FIFO of its price when that
/// price is active, else alone in a new level at a position keeping prices
/// sorted.
pub open spec fn placed(a: Ladder, b: Ladder, o: Order) -> bool {
    match a.prices@.index_of_first(o.price) {
        Some(k) => b.entries() == a.entries().update(k, (o.price, a.entries()[k].1.push(o))),
        None => exists|k: int| 0 <= k <= a.prices.len() && b.entries() == a.entries().insert(k, (o.price, seq![o])),
    }
}

/// `b` is `a` without order `j` of the level at position `k`; a level left
/// without orders is gone.
pub open spec fn removed(a: Ladder, b: Ladder, k: int, j: int) -> bool {
    if a.levels@[k].orders.len() > 1 {
        b.entries() == a.entries().update(k, (a.prices@[k], a.entries()[k].1.remove(j)))
    } else {
        b.entries() == a.entries().remove(k)
    }
}

/// The sorted active prices of one side and their levels, position by position.
pub struct Ladder {
    pub prices: Vec<u128>,
    pub levels: Vec<LinkedPriceLevel>,
}

impl Ladder {
    pub open spec fn wf(&self, is_bid: bool, pair: Seq<u8>) -> bool {
        &&& self.prices.len() == self.levels.len()
        &&& sorted(self.prices@)
        &&& forall|i: int| 0 <= i < self.prices.len() ==> #[trigger] self.prices@[i] > 0
        &&& forall|i: int|
            0 <= i < self.levels.len() ==> links_ok(#[trigger] self.levels@[i], self.prices@, i, is_bid)
        &&& forall|i: int| 0 <= i < self.levels.len() ==> (#[trigger] self.levels@[i]).orders.len() > 0
        &&& forall|i: int, j: int|
            0 <= i < self.levels.len() && 0 <= j < self.levels@[i].orders.len()
                ==> resting_ok(#[trigger] self.levels@[i].orders@[j], self.prices@[i], is_bid, pair)
    }

    /// The side as a sequence of (price, orders oldest first), lowest price first.
    pub open spec fn entries(&self) -> Seq<(u128, Seq<Order>)> {
        Seq::new(self.prices.len() as nat, |i: int| (self.prices@[i], self.levels@[i].orders@))
    }

    /// The best price of the side: the highest bid or the lowest ask; 0 when empty.
    pub open spec fn best_spec(&self, is_bid: bool) -> u128 {
        if self.prices.len() == 0 {
            0
        } else if is_bid {
            self.prices@.last()
        } else {
            self.prices@[0]
        }
    }

    /// Position of the best price.
    pub open spec fn best_pos(&self, is_bid: bool) -> int {
        if is_bid {
            self.prices.len() - 1
        } else {
            0
        }
    }

    /// An empty side.
    pub fn new() -> (r: Ladder)
        ensures
            forall|is_bid: bool, pair: Seq<u8>| r.wf(is_bid, pair),
            r.prices@.len() == 0,
    {
        Ladder { prices: Vec::new(), levels: Vec::new() }
    }

    /// The best price of the side: the highest bid or the lowest ask; 0 when empty.
    pub fn best(&self, is_bid: bool) -> (r: u128)
        ensures
            r == self.best_spec(is_bid),
    {
        if self.prices.len() == 0 {
            0
        } else if is_bid {
            self.prices[self.prices.len() - 1]
        } else {
            self.prices[0]
        }
    }

    /// Binary search: `Ok(k)` where `prices[k] == p`, or `Err(k)`, the position
    /// at which `p` keeps the prices sorted.
    pub fn search(&self, p: u128) -> (r: Result<usize, usize>)
        requires
            sorted(self.prices@),
        ensures
            match r {
                Ok(k) => k < self.prices.len() && self.prices@[k as int] == p,
                Err(k) => k <= self.prices.len()
                    && (forall|i: int| 0 <= i < k ==> self.prices@[i] < p)
                    && (forall|i: int| k <= i < self.prices.len() ==> self.prices@[i] > p),
            },
    {
        let mut lo: usize = 0;
        let mut hi: usize = self.prices.len();
        while lo < hi
            invariant
                sorted(self.prices@),
                0 <= lo <= hi <= self.prices.len(),
                forall|i: int| 0 <= i < lo ==> self.prices@[i] < p,
                forall|i: int| hi <= i < self.prices.len() ==> self.prices@[i] > p,
            decreases hi - lo,
        {
            let mid = lo + (hi - lo) / 2;
            let v = self.prices[mid];
            if v == p {
                return Ok(mid);
            } else if v < p {
                lo = mid + 1;
            } else {
                hi = mid;
            }
        }
        Err(lo)
    }

    /// Sets the links of the level at position `i` from the prices.
    fn relink(&mut self, i: usize, is_bid: bool)
        requires
            old(self).prices.len() == old(self).levels.len(),
            i < old(self).levels.len(),
        ensures
            final(self).prices == old(self).prices,
            final(self).levels.len() == old(self).levels.len(),
            forall|j: int| 0 <= j < final(self).levels.len() && j != i
                ==> #[trigger] final(self).levels@[j] == old(self).levels@[j],
            final(self).levels@[i as int].orders == old(self).levels@[i as int].orders,
            links_ok(final(self).levels@[i as int], final(self).prices@, i as int, is_bid),
    {
        let lo = if i > 0 {
            Some(self.prices[i - 1])
        } else {
            None
        };
        let up = if i + 1 < self.prices.len() {
            Some(self.prices[i + 1])
        } else {
            None
        };
        if is_bid {
            self.levels[i].prev = up;
            self.levels[i].next = lo;
        } else {
            self.levels[i].prev = lo;
            self.levels[i].next = up;
        }
    }

    /// Places a resting order: at the back of the FIFO of its price when that
    /// price is active, else in a new level inserted in sorted position and
    /// linked to its neighbours.
    pub fn insert_order(&mut self, order: Order, is_bid: bool)
        requires
            old(self).wf(is_bid, order.trading_pair@),
            order.price > 0,
            order.quantity > 0,
            order.order_type == side_type(is_bid),
        ensures
            final(self).wf(is_bid, order.trading_pair@),
            placed(*old(self), *final(self), order),
            final(self).prices@.to_set() == old(self).prices@.to_set().insert(order.price),
    {
        let ghost pre = *self;
        let ghost pair = order.trading_pair@;
        match self.search(order.price) {
            Ok(k) => {
                proof {
                    self.lemma_index_of_first(k as int);
                }
                self.levels[k].orders.push(order);
                assert forall|i: int, j: int|
                    0 <= i < self.levels.len() && 0 <= j < self.levels@[i].orders.len()
                        implies resting_ok(#[trigger] self.levels@[i].orders@[j], self.prices@[i], is_bid, pair) by {
                    if i != k as int {
                        assert(self.levels@[i] == pre.levels@[i]);
                    } else if j < pre.levels@[i].orders.len() {
                        assert(self.levels@[i].orders@[j] == pre.levels@[i].orders@[j]);
                    }
                }
                assert forall|i: int| 0 <= i < self.levels.len()
                    implies links_ok(#[trigger] self.levels@[i], self.prices@, i, is_bid) by {
                    assert(links_ok(pre.levels@[i], pre.prices@, i, is_bid));
                }
                assert(self.entries() =~= pre.entries().update(
                    k as int,
                    (order.price, pre.entries()[k as int].1.push(order)),
                ));
                assert(self.prices@.to_set() =~= pre.prices@.to_set().insert(order.price));
            },
            Err(k) => {
                proof {
                    self.lemma_absent(order.price);
                }
                self.insert_level(k, order, is_bid);
            },
        }
    }


    /// Inserts a new level holding `order` alone at position `k`.
    #[verifier::rlimit(40)]
    fn insert_level(&mut self, k: usize, order: Order, is_bid: bool)
        requires
            old(self).wf(is_bid, order.trading_pair@),
            order.price > 0,
            order.quantity > 0,
            order.order_type == side_type(is_bid),
            k <= old(self).prices.len(),
            forall|i: int| 0 <= i < k ==> old(self).prices@[i] < order.price,
            forall|i: int| k <= i < old(self).prices.len() ==> old(self).prices@[i] > order.price,
        ensures
            final(self).wf(is_bid, order.trading_pair@),
            final(self).entries() == old(self).entries().insert(k as int, (order.price, seq![order])),
            final(self).prices@ == old(self).prices@.insert(k as int, order.price),
            final(self).prices@.to_set() == old(self).prices@.to_set().insert(order.price),
    {
        let ghost pre = *self;
        let ghost pair = order.trading_pair@;
        let mut level = LinkedPriceLevel::empty();
        level.orders.push(order);
        self.prices.insert(k, order.price);
        self.levels.insert(k, level);
        assert(sorted(self.prices@));
        let ghost mid = *self;
        self.relink(k, is_bid);
        if k > 0 {
            self.relink(k - 1, is_bid);
        }
        if k + 1 < self.levels.len() {
            self.relink(k + 1, is_bid);
        }
        let ghost ki = k as int;
        assert forall|i: int| 0 <= i < self.levels.len() implies #[trigger] self.levels@[i].orders
            == mid.levels@[i].orders by {
            if i != ki && i != ki - 1 && i != ki + 1 {
                assert(self.levels@[i] == mid.levels@[i]);
            }
        }
        assert forall|i: int| 0 <= i < self.levels.len()
            implies links_ok(#[trigger] self.levels@[i], self.prices@, i, is_bid) by {
            if i < ki - 1 {
                assert(self.levels@[i] == pre.levels@[i]);
                assert(links_ok(pre.levels@[i], pre.prices@, i, is_bid));
            } else if i > ki + 1 {
                assert(self.levels@[i] == pre.levels@[i - 1]);
                assert(links_ok(pre.levels@[i - 1], pre.prices@, i - 1, is_bid));
            }
        }
        assert forall|i: int| 0 <= i < self.levels.len()
            implies (#[trigger] self.levels@[i]).orders.len() > 0 by {
            if i < ki {
                assert(self.levels@[i].orders == pre.levels@[i].orders);
            } else if i > ki {
                assert(self.levels@[i].orders == pre.levels@[i - 1].orders);
            }
        }
        assert forall|i: int, j: int|
            0 <= i < self.levels.len() && 0 <= j < self.levels@[i].orders.len()
                implies resting_ok(#[trigger] self.levels@[i].orders@[j], self.prices@[i], is_bid, pair) by {
            if i < ki {
                assert(self.levels@[i].orders == pre.levels@[i].orders);
                assert(resting_ok(pre.levels@[i].orders@[j], pre.prices@[i], is_bid, pair));
            } else if i > ki {
                assert(self.levels@[i].orders == pre.levels@[i - 1].orders);
                assert(resting_ok(pre.levels@[i - 1].orders@[j], pre.prices@[i - 1], is_bid, pair));
            }
        }
        assert forall|i: int| 0 <= i < self.prices.len() implies #[trigger] self.prices@[i] > 0 by {
            if i < ki {
                assert(self.prices@[i] == pre.prices@[i]);
            } else if i > ki {
                assert(self.prices@[i] == pre.prices@[i - 1]);
            }
        }
        let ghost target = pre.entries().insert(ki, (order.price, seq![order]));
        assert forall|i: int| 0 <= i < self.prices.len() implies #[trigger] self.entries()[i] == target[i] by {
            if i < ki {
                assert(self.levels@[i].orders == pre.levels@[i].orders);
            } else if i > ki {
                assert(self.levels@[i].orders == pre.levels@[i - 1].orders);
            } else {
                assert(self.levels@[i].orders@ =~= seq![order]);
            }
        }
        assert(self.entries() =~= target);
        assert(self.prices@.to_set() =~= pre.prices@.to_set().insert(order.price)) by {
            assert forall|x: u128| self.prices@.contains(x) <==> (pre.prices@.contains(x) || x == order.price) by {
                if self.prices@.contains(x) {
                    let i = choose|i: int| 0 <= i < self.prices.len() && self.prices@[i] == x;
                    if i < ki {
                        assert(pre.prices@[i] == x);
                    } else if i > ki {
                        assert(pre.prices@[i - 1] == x);
                    }
                }
                if pre.prices@.contains(x) {
                    let i = choose|i: int| 0 <= i < pre.prices.len() && pre.prices@[i] == x;
                    if i < ki {
                        assert(self.prices@[i] == x);
                    } else {
                        assert(self.prices@[i + 1] == x);
                    }
                }
                if x == order.price {
                    assert(self.prices@[ki] == x);
                }
            }
        }
    }


    /// Replaces the quantity of order `j` of the level at position `k`.
    pub fn set_quantity(&mut self, k: usize, j: usize, q: u128, is_bid: bool, Ghost(pair): Ghost<Seq<u8>>)
        requires
            old(self).wf(is_bid, pair),
            k < old(self).levels.len(),
            j < old(self).levels@[k as int].orders.len(),
            q > 0,
        ensures
            final(self).wf(is_bid, pair),
            final(self).prices == old(self).prices,
            final(self).entries() == old(self).entries().update(
                k as int,
                (
                    old(self).prices@[k as int],
                    old(self).entries()[k as int].1.update(
                        j as int,
                        Order { quantity: q, ..old(self).levels@[k as int].orders@[j as int] },
                    ),
                ),
            ),
    {
        let ghost pre = *self;
        let mut o = self.levels[k].orders[j];
        o.quantity = q;
        self.levels[k].orders.set(j, o);
        assert forall|i: int, jj: int|
            0 <= i < self.levels.len() && 0 <= jj < self.levels@[i].orders.len()
                implies resting_ok(#[trigger] self.levels@[i].orders@[jj], self.prices@[i], is_bid, pair) by {
            if i != k as int {
                assert(self.levels@[i] == pre.levels@[i]);
            } else {
                assert(resting_ok(pre.levels@[i].orders@[jj], pre.prices@[i], is_bid, pair));
            }
        }
        assert forall|i: int| 0 <= i < self.levels.len()
            implies links_ok(#[trigger] self.levels@[i], self.prices@, i, is_bid) by {
            assert(links_ok(pre.levels@[i], pre.prices@, i, is_bid));
        }
        assert forall|i: int| 0 <= i < self.levels.len()
            implies (#[trigger] self.levels@[i]).orders.len() > 0 by {
            assert(pre.levels@[i].orders.len() > 0);
        }
        assert(self.entries() =~= pre.entries().update(
            k as int,
            (pre.prices@[k as int], pre.entries()[k as int].1.update(j as int, o)),
        ));
    }

    /// Removes order `j` of the level at position `k` and returns it; a level
    /// left without orders is removed and its neighbours linked to each other.
    #[verifier::rlimit(40)]
    pub fn remove_order(&mut self, k: usize, j: usize, is_bid: bool, Ghost(pair): Ghost<Seq<u8>>) -> (r: Order)
        requires
            old(self).wf(is_bid, pair),
            k < old(self).levels.len(),
            j < old(self).levels@[k as int].orders.len(),
        ensures
            final(self).wf(is_bid, pair),
            r == old(self).levels@[k as int].orders@[j as int],
            removed(*old(self), *final(self), k as int, j as int),
            old(self).levels@[k as int].orders.len() > 1 ==> {
                &&& final(self).prices == old(self).prices
                &&& final(self).entries() == old(self).entries().update(
                    k as int,
                    (old(self).prices@[k as int], old(self).entries()[k as int].1.remove(j as int)),
                )
            },
            old(self).levels@[k as int].orders.len() == 1 ==> {
                &&& final(self).prices@ == old(self).prices@.remove(k as int)
                &&& final(self).entries() == old(self).entries().remove(k as int)
            },
    {
        let ghost pre = *self;
        let r = self.levels[k].orders.remove(j);
        if self.levels[k].orders.len() > 0 {
            assert forall|i: int, jj: int|
                0 <= i < self.levels.len() && 0 <= jj < self.levels@[i].orders.len()
                    implies resting_ok(#[trigger] self.levels@[i].orders@[jj], self.prices@[i], is_bid, pair) by {
                if i != k as int {
                    assert(self.levels@[i] == pre.levels@[i]);
                } else if jj < j {
                    assert(resting_ok(pre.levels@[i].orders@[jj], pre.prices@[i], is_bid, pair));
                } else {
                    assert(resting_ok(pre.levels@[i].orders@[jj + 1], pre.prices@[i], is_bid, pair));
                }
            }
            assert forall|i: int| 0 <= i < self.levels.len()
                implies links_ok(#[trigger] self.levels@[i], self.prices@, i, is_bid) by {
                assert(links_ok(pre.levels@[i], pre.prices@, i, is_bid));
            }
            assert forall|i: int| 0 <= i < self.levels.len()
                implies (#[trigger] self.levels@[i]).orders.len() > 0 by {
                assert(pre.levels@[i].orders.len() > 0);
            }
            assert(self.entries() =~= pre.entries().update(
                k as int,
                (pre.prices@[k as int], pre.entries()[k as int].1.remove(j as int)),
            ));
            assert(pre.levels@[k as int].orders.len() > 1);
            assert(removed(pre, *self, k as int, j as int));
            return r;
        }
        let ghost mid = *self;
        assert(mid.entries().remove(k as int) =~= pre.entries().remove(k as int));
        self.remove_level(k, is_bid, Ghost(pair));
        assert(pre.levels@[k as int].orders.len() == 1);
        assert(removed(pre, *self, k as int, j as int));
        r
    }

    /// Removes the level at position `k`, whose FIFO is empty, and links its
    /// neighbours to each other.
    #[verifier::rlimit(40)]
    fn remove_level(&mut self, k: usize, is_bid: bool, Ghost(pair): Ghost<Seq<u8>>)
        requires
            old(self).prices.len() == old(self).levels.len(),
            sorted(old(self).prices@),
            k < old(self).levels.len(),
            forall|i: int| 0 <= i < old(self).prices.len() ==> #[trigger] old(self).prices@[i] > 0,
            forall|i: int| 0 <= i < old(self).levels.len() && i != k
                ==> links_ok(#[trigger] old(self).levels@[i], old(self).prices@, i, is_bid),
            forall|i: int| 0 <= i < old(self).levels.len() && i != k
                ==> (#[trigger] old(self).levels@[i]).orders.len() > 0,
            forall|i: int, j: int|
                0 <= i < old(self).levels.len() && i != k && 0 <= j < old(self).levels@[i].orders.len()
                    ==> resting_ok(#[trigger] old(self).levels@[i].orders@[j], old(self).prices@[i], is_bid, pair),
        ensures
            final(self).wf(is_bid, pair),
            final(self).prices@ == old(self).prices@.remove(k as int),
            final(self).entries() == old(self).entries().remove(k as int),
    {
        let ghost pre = *self;
        self.prices.remove(k);
        self.levels.remove(k);
        let ghost mid = *self;
        if k > 0 {
            self.relink(k - 1, is_bid);
        }
        if k < self.levels.len() {
            self.relink(k, is_bid);
        }
        let ghost ki = k as int;
        assert forall|i: int| 0 <= i < self.levels.len() implies #[trigger] self.levels@[i].orders
            == mid.levels@[i].orders by {
            if i != ki && i != ki - 1 {
                assert(self.levels@[i] == mid.levels@[i]);
            }
        }
        assert forall|i: int| 0 <= i < self.levels.len()
            implies links_ok(#[trigger] self.levels@[i], self.prices@, i, is_bid) by {
            if i < ki - 1 {
                assert(self.levels@[i] == pre.levels@[i]);
                assert(links_ok(pre.levels@[i], pre.prices@, i, is_bid));
            } else if i > ki {
                assert(self.levels@[i] == pre.levels@[i + 1]);
                assert(links_ok(pre.levels@[i + 1], pre.prices@, i + 1, is_bid));
            }
        }
        assert forall|i: int| 0 <= i < self.levels.len()
            implies (#[trigger] self.levels@[i]).orders.len() > 0 by {
            if i < ki {
                assert(self.levels@[i].orders == pre.levels@[i].orders);
            } else {
                assert(self.levels@[i].orders == pre.levels@[i + 1].orders);
            }
        }
        assert forall|i: int, j: int|
            0 <= i < self.levels.len() && 0 <= j < self.levels@[i].orders.len()
                implies resting_ok(#[trigger] self.levels@[i].orders@[j], self.prices@[i], is_bid, pair) by {
            if i < ki {
                assert(self.levels@[i].orders == pre.levels@[i].orders);
                assert(resting_ok(pre.levels@[i].orders@[j], pre.prices@[i], is_bid, pair));
            } else {
                assert(self.levels@[i].orders == pre.levels@[i + 1].orders);
                assert(resting_ok(pre.levels@[i + 1].orders@[j], pre.prices@[i + 1], is_bid, pair));
            }
        }
        assert forall|i: int| 0 <= i < self.prices.len() implies #[trigger] self.prices@[i] > 0 by {
            if i < ki {
                assert(self.prices@[i] == pre.prices@[i]);
            } else {
                assert(self.prices@[i] == pre.prices@[i + 1]);
            }
        }
        let ghost target = pre.entries().remove(ki);
        assert forall|i: int| 0 <= i < self.prices.len() implies #[trigger] self.entries()[i] == target[i] by {
            if i < ki {
                assert(self.levels@[i].orders == pre.levels@[i].orders);
            } else {
                assert(self.levels@[i].orders == pre.levels@[i + 1].orders);
            }
        }
        assert(self.entries() =~= target);
    }

    /// A copy of the side, level by level.
    pub fn copy(&self) -> (r: Ladder)
        ensures
            r.prices@ == self.prices@,
            r.levels.len() == self.levels.len(),
            forall|i: int| 0 <= i < self.levels.len() ==> {
                &&& (#[trigger] r.levels@[i]).orders@ == self.levels@[i].orders@
                &&& r.levels@[i].next == self.levels@[i].next
                &&& r.levels@[i].prev == self.levels@[i].prev
            },
            forall|is_bid: bool, pair: Seq<u8>| self.wf(is_bid, pair) ==> r.wf(is_bid, pair),
            self.prices.len() == self.levels.len() ==> r.entries() == self.entries(),
    {
        let mut levels: Vec<LinkedPriceLevel> = Vec::new();
        let mut i: usize = 0;
        while i < self.levels.len()
            invariant
                0 <= i <= self.levels.len(),
                levels.len() == i,
                forall|j: int| 0 <= j < i ==> {
                    &&& (#[trigger] levels@[j]).orders@ == self.levels@[j].orders@
                    &&& levels@[j].next == self.levels@[j].next
                    &&& levels@[j].prev == self.levels@[j].prev
                },
            decreases self.levels.len() - i,
        {
            let l = &self.levels[i];
            levels.push(LinkedPriceLevel { next: l.next, prev: l.prev, orders: l.orders.clone() });
            i = i + 1;
        }
        let r = Ladder { prices: self.prices.clone(), levels };
        assert forall|is_bid: bool, pair: Seq<u8>| self.wf(is_bid, pair) implies r.wf(is_bid, pair) by {
            assert forall|i: int| 0 <= i < r.levels.len()
                implies links_ok(#[trigger] r.levels@[i], r.prices@, i, is_bid) by {
                assert(links_ok(self.levels@[i], self.prices@, i, is_bid));
            }
            assert forall|i: int| 0 <= i < r.levels.len() implies (#[trigger] r.levels@[i]).orders.len() > 0 by {
                assert(self.levels@[i].orders.len() > 0);
            }
            assert forall|i: int, j: int|
                0 <= i < r.levels.len() && 0 <= j < r.levels@[i].orders.len()
                    implies resting_ok(#[trigger] r.levels@[i].orders@[j], r.prices@[i], is_bid, pair) by {
                assert(resting_ok(self.levels@[i].orders@[j], self.prices@[i], is_bid, pair));
            }
        }
        if self.prices.len() == self.levels.len() {
            assert forall|i: int| 0 <= i < r.prices.len() implies #[trigger] r.entries()[i] == self.entries()[i] by {
                assert(r.levels@[i].orders@ == self.levels@[i].orders@);
            }
            assert(r.entries() =~= self.entries());
        }
        r
    }

    proof fn lemma_index_of_first(&self, k: int)
        requires
            sorted(self.prices@),
            0 <= k < self.prices.len(),
        ensures
            self.prices@.index_of_first(self.prices@[k]) == Some(k),
    {
        let s = self.prices@;
        let r = s.index_of_first(s[k]);
        s.index_of_first_ensures(s[k]);
        match r {
            Some(j) => {
                if j < k {
                    assert(s[j] < s[k]);
                } else if j > k {
                    assert(s[k] < s[j]);
                }
            },
            None => {
                assert(s.contains(s[k]));
            },
        }
    }

    proof fn lemma_absent(&self, p: u128)
        requires
            forall|i: int| 0 <= i < self.prices.len() ==> self.prices@[i] != p,
        ensures
            self.prices@.index_of_first(p) is None,
    {
        self.prices@.index_of_first_ensures(p);
    }
}

} // verus!
