//! The closed set of classification categories and their bitmask encoding.

use vstd::prelude::*;

verus! {

/// A classification category.  Each category owns one bit of a category
/// mask, and the bit values are a wire-compatibility contract between the
/// build pipeline and the runtime matcher: future categories append higher
/// bits without renumbering these.
#[derive(Clone, Copy, PartialEq, Eq, Structural, Debug)]
pub enum Category {
    Bad,
    Ads,
    Tracking,
    Gambling,
}

/// The bit a category contributes to a mask: Bad=1, Ads=2, Tracking=4,
/// Gambling=8.
pub open spec fn spec_bit(c: Category) -> u8 {
    match c {
        Category::Bad => 1,
        Category::Ads => 2,
        Category::Tracking => 4,
        Category::Gambling => 8,
    }
}

impl Category {
    /// The category's bit in a category mask.
    pub fn bit(&self) -> (b: u8)
        ensures
            b == spec_bit(*self),
    {
        match self {
            Category::Bad => 1,
            Category::Ads => 2,
            Category::Tracking => 4,
            Category::Gambling => 8,
        }
    }
}

/// Bitwise OR on masks is associative.
pub proof fn lemma_mask_or_assoc(a: u8, b: u8, c: u8)
    ensures
        (a | b) | c == a | (b | c),
{
    assert((a | b) | c == a | (b | c)) by (bit_vector);
}

/// Zero is the neutral mask.
pub proof fn lemma_mask_or_zero(a: u8)
    ensures
        a | 0 == a,
        0 | a == a,
{
    assert(a | 0 == a && 0 | a == a) by (bit_vector);
}

/// An OR-combined mask covers both of its operands.
pub proof fn lemma_mask_or_superset(a: u8, b: u8)
    ensures
        (a | b) & b == b,
        (a | b) & a == a,
{
    assert((a | b) & b == b && (a | b) & a == a) by (bit_vector);
}

/// Every bit of `sub` is set in `sup`.
pub open spec fn submask(sub: u8, sup: u8) -> bool {
    sup & sub == sub
}

/// Every mask contains itself.
pub proof fn lemma_submask_refl(a: u8)
    ensures
        submask(a, a),
{
    assert(a & a == a) by (bit_vector);
}

/// Mask containment is transitive.
pub proof fn lemma_submask_trans(a: u8, b: u8, c: u8)
    requires
        submask(a, b),
        submask(b, c),
    ensures
        submask(a, c),
{
    assert((b & a == a && c & b == b) ==> c & a == a) by (bit_vector);
}

/// A contained mask is absorbed by OR.
pub proof fn lemma_submask_or_absorb(a: u8, b: u8)
    requires
        submask(a, b),
    ensures
        a | b == b,
{
    assert(b & a == a ==> (a | b) == b) by (bit_vector);
}

/// A mask that covers a non-empty mask is itself non-empty.
pub proof fn lemma_mask_submask_nonzero(x: u8, y: u8)
    requires
        x & y == y,
        y != 0,
    ensures
        x != 0,
{
    assert((x & y == y && y != 0) ==> x != 0) by (bit_vector);
}

/// Masking the empty mask leaves it empty.
pub proof fn lemma_mask_and_zero(m: u8)
    ensures
        0u8 & m == 0,
        m & 0u8 == 0,
{
    assert(0u8 & m == 0 && m & 0u8 == 0) by (bit_vector);
}

/// OR-ing in a non-zero mask gives a non-zero mask.
pub proof fn lemma_mask_or_nonzero(a: u8, b: u8)
    requires
        b != 0,
    ensures
        a | b != 0,
{
    assert(b != 0 ==> (a | b) != 0) by (bit_vector);
}

/// A bit set in either operand stays set in the OR-combined mask.
pub proof fn lemma_mask_or_carries_bit(a: u8, b: u8, c: u8)
    requires
        a & c != 0 || b & c != 0,
    ensures
        (a | b) & c != 0,
{
    assert((a & c != 0 || b & c != 0) ==> (a | b) & c != 0) by (bit_vector);
}

} // verus!
