//! Identifiers of trading pairs and orders: the BLAKE2b-256 digest of the
//! little-endian binary encoding of what identifies them.
use vstd::prelude::*;

verus! {

use crate::ledger::Id32;
use crate::types::OrderType;

/// The 32-byte BLAKE2b digest of a byte string.
pub uninterp spec fn blake2_256_of(data: Seq<u8>) -> Seq<u8>;

/// Relies on `sp_core_hashing::blake2_256`: the 32-byte BLAKE2b digest of the
/// bytes, which depends on them alone.
#[verifier::external_body]
fn blake2_256(data: &Vec<u8>) -> (r: Id32)
    ensures
        r@ == blake2_256_of(data@),
{
    sp_core_hashing::blake2_256(data.as_slice())
}

/// The `n` low bytes of `x`, least significant first.
pub open spec fn le_bytes(x: nat, n: nat) -> Seq<u8>
    decreases n,
{
    if n == 0 {
        Seq::empty()
    } else {
        seq![(x % 256) as u8] + le_bytes(x / 256, (n - 1) as nat)
    }
}

/// Appends the `n` low bytes of `x`, least significant first.
fn push_le(out: &mut Vec<u8>, x: u128, n: usize)
    requires
        n <= 16,
    ensures
        final(out)@ == old(out)@ + le_bytes(x as nat, n as nat),
{
    let mut v: u128 = x;
    let mut i: usize = 0;
    while i < n
        invariant
            i <= n <= 16,
            old(out)@ + le_bytes(x as nat, n as nat) == out@ + le_bytes(v as nat, (n - i) as nat),
        decreases n - i,
    {
        let ghost before = out@;
        out.push((v % 256) as u8);
        assert(le_bytes(v as nat, (n - i) as nat) == seq![(v % 256) as u8] + le_bytes(
            (v / 256) as nat,
            (n - i - 1) as nat,
        ));
        assert(before + le_bytes(v as nat, (n - i) as nat) =~= out@ + le_bytes(
            (v / 256) as nat,
            (n - i - 1) as nat,
        ));
        v = v / 256;
        i = i + 1;
    }
    assert(le_bytes(v as nat, 0) =~= Seq::<u8>::empty());
    assert(out@ + le_bytes(v as nat, 0) =~= out@);
}

/// Encoding of a (quote, base) pair of asset ids.
pub open spec fn pair_encoding(quote: u32, base: u32) -> Seq<u8> {
    le_bytes(quote as nat, 4) + le_bytes(base as nat, 4)
}

/// The identifier of the trading pair of two assets.
pub open spec fn pair_id_spec(quote: u32, base: u32) -> Seq<u8> {
    blake2_256_of(pair_encoding(quote, base))
}

/// Encoding of what identifies an order.
pub open spec fn order_encoding(
    pair: Seq<u8>,
    trader: Seq<u8>,
    price: u128,
    quantity: u128,
    order_type: OrderType,
    nonce: u128,
) -> Seq<u8> {
    pair + trader + le_bytes(price as nat, 16) + le_bytes(quantity as nat, 16) + seq![order_type.tag_spec()]
        + le_bytes(nonce as nat, 16)
}

/// Derives a trading pair's identifier from its quote and base asset ids.
pub fn create_trading_pair_id(quote_asset_id: u32, base_asset_id: u32) -> (r: Id32)
    ensures
        r@ == pair_id_spec(quote_asset_id, base_asset_id),
{
    let mut data: Vec<u8> = Vec::new();
    push_le(&mut data, quote_asset_id as u128, 4);
    push_le(&mut data, base_asset_id as u128, 4);
    assert(data@ =~= pair_encoding(quote_asset_id, base_asset_id));
    blake2_256(&data)
}

/// Derives an order's identifier.
pub fn create_order_id(
    pair: &Id32,
    trader: &Id32,
    price: u128,
    quantity: u128,
    order_type: OrderType,
    nonce: u128,
) -> (r: Id32)
    ensures
        r@ == blake2_256_of(order_encoding(pair@, trader@, price, quantity, order_type, nonce)),
{
    let mut data: Vec<u8> = Vec::new();
    let mut i: usize = 0;
    while i < 32
        invariant
            0 <= i <= 32,
            data@ == pair@.subrange(0, i as int),
        decreases 32 - i,
    {
        data.push(pair[i]);
        assert(data@ =~= pair@.subrange(0, i + 1));
        i = i + 1;
    }
    let mut i: usize = 0;
    while i < 32
        invariant
            0 <= i <= 32,
            data@ == pair@ + trader@.subrange(0, i as int),
        decreases 32 - i,
    {
        data.push(trader[i]);
        assert(data@ =~= pair@ + trader@.subrange(0, i + 1));
        i = i + 1;
    }
    assert(pair@.subrange(0, 32) =~= pair@);
    assert(trader@.subrange(0, 32) =~= trader@);
    push_le(&mut data, price, 16);
    push_le(&mut data, quantity, 16);
    data.push(order_type.tag());
    push_le(&mut data, nonce, 16);
    assert(data@ =~= order_encoding(pair@, trader@, price, quantity, order_type, nonce));
    blake2_256(&data)
}

} // verus!
