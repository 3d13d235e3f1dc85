//! The balance ledger the engine settles against: per asset and account, a
//! free balance and a reserved balance.
use vstd::prelude::*;

verus! {

/// A 32-byte identity: an account, a trading pair or an order.
pub type Id32 = [u8; 32];

/// Whether two identities are equal.
pub fn same_id(a: &Id32, b: &Id32) -> (r: bool)
    ensures
        r == (a@ == b@),
{
    let mut i: usize = 0;
    while i < 32
        invariant
            0 <= i <= 32,
            forall|j: int| 0 <= j < i ==> a@[j] == b@[j],
        decreases 32 - i,
    {
        if a[i] != b[i] {
            return false;
        }
        i = i + 1;
    }
    assert(a@ =~= b@);
    true
}

/// Balances of one account in one asset.
#[derive(Clone, Copy, Debug)]
pub struct AssetBalance {
    pub asset: u32,
    pub who: Id32,
    pub free: u128,
    pub reserved: u128,
}

/// The key under which the ledger keeps an account's balances of an asset.
pub open spec fn key_of(e: AssetBalance) -> (u32, Seq<u8>) {
    (e.asset, e.who@)
}

/// The balances of the ledger, as its view shows them.
pub type Balances = Map<(u32, Seq<u8>), (u128, u128)>;

/// Free balance under a key of a ledger's view; zero for an absent key.
pub open spec fn map_free(m: Balances, k: (u32, Seq<u8>)) -> int {
    if m.contains_key(k) {
        m[k].0 as int
    } else {
        0
    }
}

/// Reserved balance under a key of a ledger's view; zero for an absent key.
pub open spec fn map_reserved(m: Balances, k: (u32, Seq<u8>)) -> int {
    if m.contains_key(k) {
        m[k].1 as int
    } else {
        0
    }
}

/// `b` is `a` after `amount` of `who`'s free balance in `asset` moved to
/// its reserved balance.
pub open spec fn reserved_from(a: Ledger, b: Ledger, asset: u32, who: Seq<u8>, amount: int) -> bool {
    b@ == a@.insert((asset, who), ((a.free_of(asset, who) - amount) as u128, (a.reserved_of(asset, who) + amount) as u128))
}

/// `b` is `a` after up to `amount` of `who`'s reserved balance in `asset`
/// moved back to its free balance: all of it when less is reserved.
pub open spec fn unreserved_to(a: Ledger, b: Ledger, asset: u32, who: Seq<u8>, amount: int) -> bool {
    let moved = if amount <= a.reserved_of(asset, who) {
        amount
    } else {
        a.reserved_of(asset, who)
    };
    if a@.contains_key((asset, who)) {
        b@ == a@.insert((asset, who), ((a.free_of(asset, who) + moved) as u128, (a.reserved_of(asset, who) - moved) as u128))
    } else {
        b@ == a@
    }
}

/// Reserving an amount and then releasing the same amount gives the account
/// back the free and reserved balances it had, and touches no other account:
/// a resting limit order reserves what it may owe, and cancelling it before it
/// trades releases that same amount.
pub proof fn lemma_reserve_round_trip(a: Ledger, b: Ledger, c: Ledger, asset: u32, who: Seq<u8>, amount: int)
    requires
        a.wf(),
        0 <= amount <= a.free_of(asset, who),
        reserved_from(a, b, asset, who, amount),
        unreserved_to(b, c, asset, who, amount),
    ensures
        c.free_of(asset, who) == a.free_of(asset, who),
        c.reserved_of(asset, who) == a.reserved_of(asset, who),
        forall|k: (u32, Seq<u8>)| k != (asset, who) ==> (#[trigger] c@.contains_key(k) == a@.contains_key(k)) && (
        a@.contains_key(k) ==> c@[k] == a@[k]),
{
    a.lemma_bounded(asset, who);
    assert(b@.contains_key((asset, who)));
    assert(b.reserved_of(asset, who) == a.reserved_of(asset, who) + amount);
    assert(b.free_of(asset, who) == a.free_of(asset, who) - amount);
}

/// Free and reserved balances per asset and account.
pub struct Ledger {
    pub accounts: Vec<AssetBalance>,
}

impl Ledger {
    /// Each asset and account has at most one entry.
    pub open spec fn wf(&self) -> bool {
        &&& forall|i: int|
            0 <= i < self.accounts.len() ==> (#[trigger] self.accounts@[i]).free + self.accounts@[i].reserved
                <= u128::MAX
        &&& forall|i: int, j: int|
            0 <= i < self.accounts.len() && 0 <= j < self.accounts.len() && i != j
                ==> key_of(#[trigger] self.accounts@[i]) != key_of(#[trigger] self.accounts@[j])
    }

    pub open spec fn has(&self, k: (u32, Seq<u8>)) -> bool {
        exists|i: int| 0 <= i < self.accounts.len() && key_of(#[trigger] self.accounts@[i]) == k
    }

    /// The ledger as a map from (asset, account) to (free, reserved).
    pub open spec fn view(&self) -> Map<(u32, Seq<u8>), (u128, u128)> {
        Map::new(
            |k: (u32, Seq<u8>)| self.has(k),
            |k: (u32, Seq<u8>)|
                {
                    let i = choose|i: int|
                        0 <= i < self.accounts.len() && key_of(#[trigger] self.accounts@[i]) == k;
                    (self.accounts@[i].free, self.accounts@[i].reserved)
                },
        )
    }

    /// Free balance of `who` in `asset`; zero for an account the ledger has not seen.
    pub open spec fn free_of(&self, asset: u32, who: Seq<u8>) -> int {
        map_free(self@, (asset, who))
    }

    /// Reserved balance of `who` in `asset`.
    pub open spec fn reserved_of(&self, asset: u32, who: Seq<u8>) -> int {
        map_reserved(self@, (asset, who))
    }

    /// What `who` holds of `asset`, free and reserved together.
    pub open spec fn holding(&self, asset: u32, who: Seq<u8>) -> int {
        self.free_of(asset, who) + self.reserved_of(asset, who)
    }

    /// No account holds more of an asset than `u128` can count.
    pub proof fn lemma_bounded(&self, asset: u32, who: Seq<u8>)
        requires
            self.wf(),
        ensures
            self.holding(asset, who) <= u128::MAX,
    {
        if self@.contains_key((asset, who)) {
            let i = choose|i: int| 0 <= i < self.accounts.len() && key_of(#[trigger] self.accounts@[i]) == (asset, who);
            self.lemma_entry(i);
        }
    }

    /// A copy of the ledger.
    pub fn copy(&self) -> (r: Ledger)
        ensures
            r.accounts@ == self.accounts@,
            r@ == self@,
            self.wf() ==> r.wf(),
    {
        let r = Ledger { accounts: self.accounts.clone() };
        assert(r@ =~= self@);
        r
    }

    /// An empty ledger.
    pub fn new() -> (r: Ledger)
        ensures
            r.wf(),
            r@ == Map::<(u32, Seq<u8>), (u128, u128)>::empty(),
    {
        let r = Ledger { accounts: Vec::new() };
        assert(r@ =~= Map::<(u32, Seq<u8>), (u128, u128)>::empty());
        r
    }

    proof fn lemma_entry(&self, i: int)
        requires
            self.wf(),
            0 <= i < self.accounts.len(),
        ensures
            self@.contains_key(key_of(self.accounts@[i])),
            self@[key_of(self.accounts@[i])] == (self.accounts@[i].free, self.accounts@[i].reserved),
    {
        let k = key_of(self.accounts@[i]);
        assert(self.has(k));
        let j = choose|j: int| 0 <= j < self.accounts.len() && key_of(#[trigger] self.accounts@[j]) == k;
        assert(key_of(self.accounts@[j]) == k);
        assert(j == i);
    }

    /// Position of the entry for (asset, who), if any.
    fn find(&self, asset: u32, who: &Id32) -> (r: Option<usize>)
        requires
            self.wf(),
        ensures
            match r {
                Some(i) => i < self.accounts.len() && key_of(self.accounts@[i as int]) == (asset, who@)
                    && self@.contains_key((asset, who@))
                    && self@[(asset, who@)] == (self.accounts@[i as int].free, self.accounts@[i as int].reserved),
                None => !self@.contains_key((asset, who@)),
            },
    {
        let mut i: usize = 0;
        while i < self.accounts.len()
            invariant
                self.wf(),
                0 <= i <= self.accounts.len(),
                forall|j: int| 0 <= j < i ==> key_of(#[trigger] self.accounts@[j]) != (asset, who@),
            decreases self.accounts.len() - i,
        {
            let e = &self.accounts[i];
            if e.asset == asset && same_id(&e.who, who) {
                proof {
                    self.lemma_entry(i as int);
                }
                return Some(i);
            }
            i = i + 1;
        }
        None
    }

    /// Writes entry `i` and keeps its key.
    fn set_entry(&mut self, i: usize, free: u128, reserved: u128)
        requires
            old(self).wf(),
            i < old(self).accounts.len(),
            free + reserved <= u128::MAX,
        ensures
            final(self).wf(),
            final(self)@ == old(self)@.insert(key_of(old(self).accounts@[i as int]), (free, reserved)),
    {
        let ghost pre = *self;
        let old_e = self.accounts[i];
        self.accounts.set(i, AssetBalance { asset: old_e.asset, who: old_e.who, free, reserved });
        let ghost k0 = key_of(pre.accounts@[i as int]);
        assert forall|a: int| 0 <= a < self.accounts.len() implies (#[trigger] self.accounts@[a]).free
            + self.accounts@[a].reserved <= u128::MAX by {
            if a != i as int {
                assert(self.accounts@[a] == pre.accounts@[a]);
            }
        }
        assert forall|a: int, b: int|
            0 <= a < self.accounts.len() && 0 <= b < self.accounts.len() && a != b
                implies key_of(#[trigger] self.accounts@[a]) != key_of(#[trigger] self.accounts@[b]) by {
            assert(key_of(pre.accounts@[a]) != key_of(pre.accounts@[b]));
        }
        assert forall|k: (u32, Seq<u8>)| #![auto] self.has(k) == pre.has(k) by {
            if self.has(k) {
                let j = choose|j: int| 0 <= j < self.accounts.len() && key_of(#[trigger] self.accounts@[j]) == k;
                assert(key_of(pre.accounts@[j]) == k);
            }
            if pre.has(k) {
                let j = choose|j: int| 0 <= j < pre.accounts.len() && key_of(#[trigger] pre.accounts@[j]) == k;
                assert(key_of(self.accounts@[j]) == k);
            }
        }
        assert forall|k: (u32, Seq<u8>)| #[trigger] self@.contains_key(k) implies
            self@[k] == pre@.insert(k0, (free, reserved))[k] by {
            let j = choose|j: int| 0 <= j < self.accounts.len() && key_of(#[trigger] self.accounts@[j]) == k;
            self.lemma_entry(j);
            if j != i as int {
                pre.lemma_entry(j);
            }
        }
        proof {
            self.lemma_entry(i as int);
        }
        assert(self@ =~= pre@.insert(k0, (free, reserved)));
    }

    /// Adds a new entry for a key the ledger does not hold.
    fn push_entry(&mut self, asset: u32, who: Id32, free: u128, reserved: u128)
        requires
            old(self).wf(),
            free + reserved <= u128::MAX,
            !old(self)@.contains_key((asset, who@)),
        ensures
            final(self).wf(),
            final(self)@ == old(self)@.insert((asset, who@), (free, reserved)),
    {
        let ghost pre = *self;
        self.accounts.push(AssetBalance { asset, who, free, reserved });
        let ghost n = pre.accounts.len() as int;
        assert forall|a: int| 0 <= a < self.accounts.len() implies (#[trigger] self.accounts@[a]).free
            + self.accounts@[a].reserved <= u128::MAX by {
            if a < n {
                assert(self.accounts@[a] == pre.accounts@[a]);
            }
        }
        assert forall|j: int| 0 <= j < n implies key_of(#[trigger] pre.accounts@[j]) != (asset, who@) by {
            pre.lemma_entry(j);
        }
        assert forall|k: (u32, Seq<u8>)| #![auto] self.has(k) == (pre.has(k) || k == (asset, who@)) by {
            if self.has(k) {
                let j = choose|j: int| 0 <= j < self.accounts.len() && key_of(#[trigger] self.accounts@[j]) == k;
                if j < n {
                    assert(key_of(pre.accounts@[j]) == k);
                }
            }
            if pre.has(k) {
                let j = choose|j: int| 0 <= j < pre.accounts.len() && key_of(#[trigger] pre.accounts@[j]) == k;
                assert(key_of(self.accounts@[j]) == k);
            }
            if k == (asset, who@) {
                assert(key_of(self.accounts@[n]) == k);
            }
        }
        assert forall|k: (u32, Seq<u8>)| #[trigger] self@.contains_key(k) implies
            self@[k] == pre@.insert((asset, who@), (free, reserved))[k] by {
            let j = choose|j: int| 0 <= j < self.accounts.len() && key_of(#[trigger] self.accounts@[j]) == k;
            self.lemma_entry(j);
            if j != n {
                pre.lemma_entry(j);
            }
        }
        proof {
            self.lemma_entry(n);
        }
        assert(self@ =~= pre@.insert((asset, who@), (free, reserved)));
    }

    /// Free balance of `who` in `asset`.
    pub fn free_balance(&self, asset: u32, who: &Id32) -> (r: u128)
        requires
            self.wf(),
        ensures
            r as int == self.free_of(asset, who@),
    {
        match self.find(asset, who) {
            Some(i) => self.accounts[i].free,
            None => 0,
        }
    }

    /// Reserved balance of `who` in `asset`.
    pub fn reserved_balance(&self, asset: u32, who: &Id32) -> (r: u128)
        requires
            self.wf(),
        ensures
            r as int == self.reserved_of(asset, who@),
    {
        match self.find(asset, who) {
            Some(i) => self.accounts[i].reserved,
            None => 0,
        }
    }

    /// Adds `amount` to the free balance of `who` in `asset`; fails, changing
    /// nothing, when the holding would exceed `u128`.
    pub fn deposit(&mut self, asset: u32, who: &Id32, amount: u128) -> (r: Result<(), ()>)
        requires
            old(self).wf(),
        ensures
            final(self).wf(),
            r is Ok <==> old(self).holding(asset, who@) + amount <= u128::MAX,
            r is Ok ==> final(self)@ == old(self)@.insert(
                (asset, who@),
                (
                    (old(self).free_of(asset, who@) + amount) as u128,
                    old(self).reserved_of(asset, who@) as u128,
                ),
            ),
            r is Err ==> final(self)@ == old(self)@,
    {
        match self.find(asset, who) {
            Some(i) => {
                let e = self.accounts[i];
                if amount > u128::MAX - e.free - e.reserved {
                    return Err(());
                }
                self.set_entry(i, e.free + amount, e.reserved);
            },
            None => {
                self.push_entry(asset, *who, amount, 0);
            },
        }
        Ok(())
    }

    /// Sets the free balance of `who` in `asset` to `amount`, which with what
    /// is reserved must fit in `u128`.
    fn set_free(&mut self, asset: u32, who: &Id32, amount: u128)
        requires
            old(self).wf(),
            amount + old(self).reserved_of(asset, who@) <= u128::MAX,
        ensures
            final(self).wf(),
            final(self)@ == old(self)@.insert(
                (asset, who@),
                (amount, old(self).reserved_of(asset, who@) as u128),
            ),
    {
        match self.find(asset, who) {
            Some(i) => {
                let r = self.accounts[i].reserved;
                self.set_entry(i, amount, r);
            },
            None => {
                self.push_entry(asset, *who, amount, 0);
            },
        }
    }

    /// Moves `amount` of `who`'s free balance in `asset` to its reserved
    /// balance; fails, changing nothing, when the free balance is smaller.
    pub fn reserve(&mut self, asset: u32, who: &Id32, amount: u128) -> (r: Result<(), ()>)
        requires
            old(self).wf(),
        ensures
            final(self).wf(),
            r is Ok <==> amount <= old(self).free_of(asset, who@),
            r is Ok ==> reserved_from(*old(self), *final(self), asset, who@, amount as int),
            r is Err ==> final(self)@ == old(self)@,
    {
        match self.find(asset, who) {
            Some(i) => {
                let e = self.accounts[i];
                if e.free < amount {
                    return Err(());
                }
                self.set_entry(i, e.free - amount, e.reserved + amount);
                Ok(())
            },
            None => {
                if amount == 0 {
                    self.push_entry(asset, *who, 0, 0);
                    Ok(())
                } else {
                    Err(())
                }
            },
        }
    }

    /// Moves up to `amount` of `who`'s reserved balance in `asset` back to its
    /// free balance: all of it when less is reserved.
    pub fn unreserve(&mut self, asset: u32, who: &Id32, amount: u128)
        requires
            old(self).wf(),
        ensures
            final(self).wf(),
            unreserved_to(*old(self), *final(self), asset, who@, amount as int),
    {
        match self.find(asset, who) {
            Some(i) => {
                let e = self.accounts[i];
                let moved = if amount <= e.reserved {
                    amount
                } else {
                    e.reserved
                };
                self.set_entry(i, e.free + moved, e.reserved - moved);
            },
            None => {},
        }
    }

    /// Moves `amount` from the free balance of `from` to that of `to`; fails,
    /// changing nothing, when `from` has less free or `to` would overflow.
    pub fn make_transfer(&mut self, asset: u32, from: &Id32, to: &Id32, amount: u128) -> (r: Result<(), ()>)
        requires
            old(self).wf(),
        ensures
            final(self).wf(),
            r is Ok <==> (amount <= old(self).free_of(asset, from@) && (from@ == to@
                || old(self).holding(asset, to@) + amount <= u128::MAX)),
            r is Ok && from@ != to@ ==> final(self)@ == old(self)@.insert(
                (asset, from@),
                ((old(self).free_of(asset, from@) - amount) as u128, old(self).reserved_of(asset, from@) as u128),
            ).insert(
                (asset, to@),
                ((old(self).free_of(asset, to@) + amount) as u128, old(self).reserved_of(asset, to@) as u128),
            ),
            r is Err || from@ == to@ ==> final(self)@ == old(self)@,
    {
        let f = self.free_balance(asset, from);
        if f < amount {
            return Err(());
        }
        if same_id(from, to) {
            return Ok(());
        }
        let t = self.free_balance(asset, to);
        let tr = self.reserved_balance(asset, to);
        proof {
            self.lemma_bounded(asset, from@);
        }
        if amount > u128::MAX - t - tr {
            return Err(());
        }
        let ghost pre = *self;
        self.set_free(asset, from, f - amount);
        assert(self.reserved_of(asset, to@) == pre.reserved_of(asset, to@));
        self.set_free(asset, to, t + amount);
        Ok(())
    }
}

} // verus!
