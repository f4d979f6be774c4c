//! Bit sequences held in a `bitvec::vec::BitVec<u64, Msb0>`.
use bitvec::order::Msb0;
use bitvec::field::BitField;
use bitvec::vec::BitVec;
use vstd::arithmetic::power2::{lemma2_to64, lemma_pow2_unfold, pow2};
use vstd::prelude::*;

verus! {

/// A growable bit sequence, stored in a `BitVec<u64, Msb0>`: bit `i` of the
/// sequence is bit `i % 64` of word `i / 64`, counted from the most
/// significant end.
#[verifier::external_body]
pub struct Bits {
    inner: BitVec<u64, Msb0>,
}

/// The bits that a bit-vector holds, first bit first.
pub uninterp spec fn bits_of(v: Bits) -> Seq<bool>;

/// Largest length of a `BitVec`: `usize::MAX >> 3`, the bound that
/// `BitVec::push` checks.
pub const MAX_BITS: usize = usize::MAX / 8;

/// Unsigned value of `b`, first bit most significant.
pub open spec fn msb_value(b: Seq<bool>) -> nat
    decreases b.len(),
{
    if b.len() == 0 {
        0
    } else {
        2 * msb_value(b.drop_last()) + (if b.last() { 1nat } else { 0nat })
    }
}

/// A sequence of `n` bits reads as a number below `2^n`.
pub proof fn lemma_msb_value_bound(b: Seq<bool>)
    ensures
        msb_value(b) < pow2(b.len()),
    decreases b.len(),
{
    if b.len() > 0 {
        lemma_msb_value_bound(b.drop_last());
        lemma_pow2_unfold(b.len());
    } else {
        lemma2_to64();
    }
}

/// A sequence of bits reads as its first bit, in the place of the highest
/// power of two, plus the value of the rest.
pub proof fn lemma_msb_value_first(c: Seq<bool>)
    requires
        c.len() >= 1,
    ensures
        msb_value(c) == (if c[0] { pow2((c.len() - 1) as nat) } else { 0 }) + msb_value(
            c.drop_first(),
        ),
    decreases c.len(),
{
    let l = c.len();
    if l == 1 {
        reveal_with_fuel(msb_value, 2);
        lemma2_to64();
        assert(c.drop_last().len() == 0);
        assert(c.drop_first().len() == 0);
    } else {
        let dl = c.drop_last();
        lemma_msb_value_first(dl);
        assert(c.drop_first().drop_last() =~= dl.drop_first());
        lemma_pow2_unfold((l - 1) as nat);
        assert(c.drop_first().last() == c.last());
    }
}

/// Relies on `BitVec::new`: the new bit-vector is empty.
#[verifier::external_body]
pub(crate) fn new_bits() -> (r: Bits)
    ensures
        bits_of(r) == Seq::<bool>::empty(),
{
    Bits { inner: BitVec::new() }
}

/// Relies on `BitVec::push`: appends one bit at the end. It panics only when
/// the new length would pass `MAX_BITS`.
#[verifier::external_body]
pub(crate) fn push_bit(v: &mut Bits, b: bool)
    requires
        bits_of(*old(v)).len() < MAX_BITS,
    ensures
        bits_of(*final(v)) == bits_of(*old(v)).push(b),
{
    v.inner.push(b)
}

/// Relies on `BitVec`'s `Index<usize>`: the bit at position `i`.
#[verifier::external_body]
pub(crate) fn bit_at(v: &Bits, i: usize) -> (r: bool)
    requires
        i < bits_of(*v).len(),
    ensures
        r == bits_of(*v)[i as int],
{
    v.inner[i]
}

/// Relies on `BitField::load_be` of an `Msb0` bit-slice: the bits
/// `start..end` read as an unsigned number, first bit most significant.
/// It panics on an empty range or one wider than the result's 8 bits.
#[verifier::external_body]
pub(crate) fn load_bits(v: &Bits, start: usize, end: usize) -> (r: u8)
    requires
        start < end <= bits_of(*v).len(),
        end - start <= 8,
    ensures
        r as nat == msb_value(bits_of(*v).subrange(start as int, end as int)),
{
    v.inner[start..end].load_be::<u8>()
}

} // verus!
