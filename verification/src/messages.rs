//! The byte payloads that requests must carry a signature over.
//!
//! A request is authorized when its signature covers exactly the fields of
//! the request, packed in a fixed order.  The packing is little-endian,
//! fixed-width, with no separators; each builder states the exact bytes.

use vstd::prelude::*;

use crate::Address;
use crate::Index;
use crate::Value;

verus! {

/// The `n` little-endian bytes of `v`.
pub open spec fn le_bytes(v: int, n: nat) -> Seq<u8>
    decreases n,
{
    if n == 0 {
        Seq::empty()
    } else {
        seq![(v % 256) as u8] + le_bytes(v / 256, (n - 1) as nat)
    }
}

/// Appends the 16 little-endian bytes of an address.
fn append_address(out: &mut Vec<u8>, v: Address)
    ensures
        final(out)@ == old(out)@ + le_bytes(v as int, 16),
{
    append_le(out, v, 16);
}

/// Appends the 8 little-endian bytes of an amount.
fn append_value(out: &mut Vec<u8>, v: Value)
    ensures
        final(out)@ == old(out)@ + le_bytes(v as int, 8),
{
    append_le(out, v as u128, 8);
}

/// Appends the 4 little-endian bytes of an epoch index.
fn append_index(out: &mut Vec<u8>, v: Index)
    ensures
        final(out)@ == old(out)@ + le_bytes(v as int, 4),
{
    append_le(out, v as u128, 4);
}

fn append_le(out: &mut Vec<u8>, v: u128, n: usize)
    requires
        n == 16 || (n == 8 && v <= u64::MAX) || (n == 4 && v <= u32::MAX),
    ensures
        final(out)@ == old(out)@ + le_bytes(v as int, n as nat),
{
    let mut x: u128 = v;
    let mut j: usize = 0;
    while j < n
        invariant
            j <= n,
            out@ + le_bytes(x as int, (n - j) as nat) == old(out)@ + le_bytes(
                v as int,
                n as nat,
            ),
        decreases n - j,
    {
        let ghost pre = out@;
        let ghost px = x as int;
        out.push((x % 256) as u8);
        x = x / 256;
        j = j + 1;
        proof {
            assert(le_bytes(px, (n - j + 1) as nat) == seq![(px % 256) as u8] + le_bytes(
                px / 256,
                (n - j) as nat,
            ));
            assert(out@ + le_bytes(x as int, (n - j) as nat) =~= pre + le_bytes(
                px,
                (n - j + 1) as nat,
            ));
        }
    }
    proof {
        assert(le_bytes(x as int, 0) == Seq::<u8>::empty());
        assert(out@ =~= out@ + le_bytes(x as int, 0));
    }
}

/// The payload a user signs to vote: her address, the validator's address,
/// and the delegated amount.
pub fn vote_message(user_address: Address, validator_address: Address, amount: Value) -> (m: Vec<
    u8,
>)
    ensures
        m@ == le_bytes(user_address as int, 16) + le_bytes(validator_address as int, 16)
            + le_bytes(amount as int, 8),
{
    let mut m: Vec<u8> = Vec::new();
    append_address(&mut m, user_address);
    append_address(&mut m, validator_address);
    append_value(&mut m, amount);
    proof {
        assert(m@ =~= le_bytes(user_address as int, 16) + le_bytes(validator_address as int, 16)
            + le_bytes(amount as int, 8));
    }
    m
}

/// The payload a user signs to withdraw: the validator's address, her
/// address, the epoch to withdraw from, and the amount.
pub fn withdraw_message(
    validator_address: Address,
    user_address: Address,
    from_epoch: Index,
    amount: Value,
) -> (m: Vec<u8>)
    ensures
        m@ == le_bytes(validator_address as int, 16) + le_bytes(user_address as int, 16)
            + le_bytes(from_epoch as int, 4) + le_bytes(amount as int, 8),
{
    let mut m: Vec<u8> = Vec::new();
    append_address(&mut m, validator_address);
    append_address(&mut m, user_address);
    append_index(&mut m, from_epoch);
    append_value(&mut m, amount);
    proof {
        assert(m@ =~= le_bytes(validator_address as int, 16) + le_bytes(user_address as int, 16)
            + le_bytes(from_epoch as int, 4) + le_bytes(amount as int, 8));
    }
    m
}

/// The payload the owner signs to withdraw her reward share: the
/// validator's address, her address, and the amount.
pub fn owner_withdraw_message(
    validator_address: Address,
    owner_address: Address,
    amount: Value,
) -> (m: Vec<u8>)
    ensures
        m@ == le_bytes(validator_address as int, 16) + le_bytes(owner_address as int, 16)
            + le_bytes(amount as int, 8),
{
    let mut m: Vec<u8> = Vec::new();
    append_address(&mut m, validator_address);
    append_address(&mut m, owner_address);
    append_value(&mut m, amount);
    proof {
        assert(m@ =~= le_bytes(validator_address as int, 16) + le_bytes(owner_address as int, 16)
            + le_bytes(amount as int, 8));
    }
    m
}

} // verus!
