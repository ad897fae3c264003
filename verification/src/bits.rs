//! Bit strings in the `bit_vec` crate's `BitVec`, with bytes as blocks, and
//! what the library assumes of that type.
//!
//! Verus does not look inside a `BitVec`. The bits that one holds are named
//! by `bit_seq`; the functions marked `external_body` state, over that name,
//! what the crate's methods do.

use vstd::prelude::*;
use bit_vec::BitVec;

verus! {

/// The `bit_vec` crate's `BitVec`, made known to the verifier as a type
/// whose inside it does not see.
#[verifier::external_type_specification]
#[verifier::external_body]
#[verifier::reject_recursive_types(B)]
pub struct ExBitVec<B>(BitVec<B>);

/// The bits that a `BitVec` holds, in order.
pub uninterp spec fn bit_seq(v: BitVec<u8>) -> Seq<bool>;

/// The number of blocks of eight bits that `n` bits take.
pub open spec fn num_blocks(n: nat) -> nat {
    (n + 7) / 8
}

/// Bit `i` of `bits` as a number; a bit that is not there counts as unset.
pub open spec fn bit(bits: Seq<bool>, i: int) -> nat {
    if 0 <= i < bits.len() && bits[i] {
        1
    } else {
        0
    }
}

/// Block `k` of `bits`: bits `8k` to `8k + 7`, the first of them lowest.
pub open spec fn block(bits: Seq<bool>, k: int) -> nat {
    bit(bits, 8 * k) + 2 * bit(bits, 8 * k + 1) + 4 * bit(bits, 8 * k + 2) + 8 * bit(bits, 8 * k + 3)
        + 16 * bit(bits, 8 * k + 4) + 32 * bit(bits, 8 * k + 5) + 64 * bit(bits, 8 * k + 6) + 128
        * bit(bits, 8 * k + 7)
}

/// `bits` packed into bytes, eight to a byte, the last byte filled up with
/// unset bits.
pub open spec fn blocks(bits: Seq<bool>) -> Seq<nat> {
    Seq::new(num_blocks(bits.len()), |k: int| block(bits, k))
}

/// Calls `BitVec::default`, which makes a `BitVec` without bits.
#[verifier::external_body]
pub(crate) fn bits_new() -> (v: BitVec<u8>)
    ensures
        bit_seq(v) == Seq::<bool>::empty(),
{
    BitVec::default()
}

/// Calls `BitVec::len`, the number of bits held.
#[verifier::external_body]
pub(crate) fn bits_len(v: &BitVec<u8>) -> (n: usize)
    ensures
        n == bit_seq(*v).len(),
{
    v.len()
}

/// Calls `BitVec::extend`, which pushes the given bits at the end, one by
/// one. It panics where the number of bits would pass `usize::MAX`, so that
/// is required not to happen.
#[verifier::external_body]
pub(crate) fn bits_extend(v: &mut BitVec<u8>, more: &Vec<bool>)
    requires
        bit_seq(*old(v)).len() + more.len() <= usize::MAX,
    ensures
        bit_seq(*final(v)) == bit_seq(*old(v)) + more@,
{
    v.extend(more.iter().cloned());
}

/// Calls `BitVec::blocks`, which walks the bytes in which the bits are
/// stored: bit `i` is bit `i % 8` of byte `i / 8`, counted from the lowest,
/// and the bits of the last byte that are not used are unset.
#[verifier::external_body]
pub(crate) fn bits_blocks(v: &BitVec<u8>) -> (bytes: Vec<u8>)
    ensures
        bytes@.map_values(|b: u8| b as nat) == blocks(bit_seq(*v)),
{
    v.blocks().collect()
}

} // verus!
