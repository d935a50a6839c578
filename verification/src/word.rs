//! 256-bit words.

use alloy_primitives::U256;
use vstd::arithmetic::power::pow;
use vstd::prelude::*;

use crate::bytes::be_value;

verus! {

/// The number that four limbs of 64 bits stand for, least significant limb first.
pub open spec fn limbs_value(limbs: Seq<u64>) -> nat {
    (limbs[0] + limbs[1] * 0x1_0000_0000_0000_0000 + limbs[2]
        * 0x1_0000_0000_0000_0000_0000_0000_0000_0000 + limbs[3]
        * 0x1_0000_0000_0000_0000_0000_0000_0000_0000_0000_0000_0000_0000) as nat
}

/// A word of the machine: an unsigned number of 256 bits, held as four limbs of 64 bits, least
/// significant limb first. Its view is the number.
#[derive(Debug, Clone, Copy, PartialEq, Eq)]
pub struct Word {
    limbs: [u64; 4],
}

impl View for Word {
    type V = nat;

    closed spec fn view(&self) -> nat {
        limbs_value(self.limbs@)
    }
}

/// `U256::from_limbs` followed by `U256::to_be_bytes`: the 32 bytes of the number, most
/// significant byte first.
#[verifier::external_body]
fn uint_to_be_bytes(limbs: [u64; 4]) -> (r: [u8; 32])
    ensures
        be_value(r@) == limbs_value(limbs@),
{
    U256::from_limbs(limbs).to_be_bytes::<32>()
}

/// `U256::from` on a `u64`: the limbs of the result stand for the argument.
#[verifier::external_body]
fn uint_from_u64(value: u64) -> (r: [u64; 4])
    ensures
        limbs_value(r@) == value,
{
    U256::from(value).into_limbs()
}

/// `U256::from_be_slice`, which panics on more than 32 bytes: the limbs of the result stand for
/// the number that the bytes are the big-endian form of.
#[verifier::external_body]
fn uint_from_be_slice(bytes: &[u8]) -> (r: [u64; 4])
    requires
        bytes@.len() <= 32,
    ensures
        limbs_value(r@) == be_value(bytes@),
{
    U256::from_be_slice(bytes).into_limbs()
}

impl Word {
    /// The word with the given limbs, least significant limb first.
    pub fn from_limbs(limbs: [u64; 4]) -> (r: Word)
        ensures
            r@ == limbs_value(limbs@),
    {
        Word { limbs }
    }

    /// The limbs of the word, least significant limb first.
    pub fn into_limbs(self) -> (r: [u64; 4])
        ensures
            limbs_value(r@) == self@,
    {
        self.limbs
    }

    /// The word that holds a small number.
    pub fn from_u64(value: u64) -> (r: Word)
        ensures
            r@ == value,
    {
        Word { limbs: uint_from_u64(value) }
    }

    /// The word that a big-endian byte string stands for.
    pub fn from_be_slice(bytes: &[u8]) -> (r: Word)
        requires
            bytes@.len() <= 32,
        ensures
            r@ == be_value(bytes@),
    {
        Word { limbs: uint_from_be_slice(bytes) }
    }

    /// The 32 bytes of the word, most significant byte first.
    pub fn to_be_bytes(self) -> (r: [u8; 32])
        ensures
            be_value(r@) == self@,
    {
        uint_to_be_bytes(self.limbs)
    }
}

/// `256^32 == 2^256`.
pub proof fn lemma_pow_256_32()
    ensures
        pow(256, 8) == 0x1_0000_0000_0000_0000,
        pow(256, 32)
            == 0x1_0000_0000_0000_0000_0000_0000_0000_0000_0000_0000_0000_0000_0000_0000_0000_0000,
{
    reveal(pow);
    reveal_with_fuel(pow, 9);
    assert(pow(256, 8) == 0x1_0000_0000_0000_0000);
    vstd::arithmetic::power::lemma_pow_adds(256, 8, 8);
    let p8 = pow(256, 8);
    assert(p8 * p8 == 0x1_0000_0000_0000_0000_0000_0000_0000_0000) by (nonlinear_arith)
        requires
            p8 == 0x1_0000_0000_0000_0000,
    ;
    vstd::arithmetic::power::lemma_pow_adds(256, 16, 16);
    let p16 = pow(256, 16);
    assert(p16 * p16
        == 0x1_0000_0000_0000_0000_0000_0000_0000_0000_0000_0000_0000_0000_0000_0000_0000_0000)
        by (nonlinear_arith)
        requires
            p16 == 0x1_0000_0000_0000_0000_0000_0000_0000_0000,
    ;
}

} // verus!
