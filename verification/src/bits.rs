//! Sixty-four GPIOs as the bits of one word.

use vstd::prelude::*;

verus! {

/// GPIO `pin` is in `mask`: pin N is bit N, and there is no pin 64 or above.
pub open spec fn has_pin(mask: u64, pin: u8) -> bool {
    pin < 64 && mask & (1u64 << pin) != 0
}

/// The pins of `mask` as a set.
pub open spec fn pin_set(mask: u64) -> Set<u8> {
    Set::new(|pin: u8| has_pin(mask, pin))
}

/// The empty mask holds no pin.
pub proof fn lemma_no_pin(pin: u8)
    ensures
        !has_pin(0, pin),
{
    assert(pin < 64 ==> 0u64 & (1u64 << pin) == 0) by (bit_vector);
}

/// Setting one bit adds one pin.
pub proof fn lemma_add_pin(mask: u64, new: u8, pin: u8)
    requires
        new < 64,
    ensures
        has_pin(mask | (1u64 << new), pin) == (pin == new || has_pin(mask, pin)),
{
    assert(new < 64 && pin < 64 ==> ((mask | (1u64 << new)) & (1u64 << pin) != 0) == (pin == new
        || mask & (1u64 << pin) != 0)) by (bit_vector);
}

/// The pins of two words together.
pub proof fn lemma_union_pins(a: u64, b: u64, pin: u8)
    ensures
        has_pin(a | b, pin) == (has_pin(a, pin) || has_pin(b, pin)),
{
    assert(pin < 64 ==> ((a | b) & (1u64 << pin) != 0) == (a & (1u64 << pin) != 0 || b & (1u64
        << pin) != 0)) by (bit_vector);
}

/// Masking one word by the complement of another takes pins away.
pub proof fn lemma_minus_pins(mask: u64, without: u64, pin: u8)
    ensures
        has_pin(mask & !without, pin) == (has_pin(mask, pin) && !has_pin(without, pin)),
{
    assert(pin < 64 ==> ((mask & !without) & (1u64 << pin) != 0) == (mask & (1u64 << pin) != 0
        && without & (1u64 << pin) == 0)) by (bit_vector);
}

/// A word is zero when none of its pins from `from` up are set and it has no bit below.
pub proof fn lemma_high_bits(mask: u64, from: u8)
    requires
        from <= 64,
        forall|pin: u8| from <= pin < 64 ==> !has_pin(mask, pin),
    ensures
        from == 64 || mask >> from == 0,
    decreases 64 - from,
{
    if from < 64 {
        lemma_high_bits(mask, (from + 1) as u8);
        assert(!has_pin(mask, from));
        assert(from < 63 && mask >> ((from + 1) as u8) == 0 && mask & (1u64 << from) == 0
            ==> mask >> from == 0) by (bit_vector);
        assert(from == 63 && mask & (1u64 << from) == 0 ==> mask >> from == 0) by (bit_vector);
    }
}

/// A mask without pins is zero.
pub proof fn lemma_all_clear(mask: u64)
    requires
        forall|pin: u8| !has_pin(mask, pin),
    ensures
        mask == 0,
{
    lemma_high_bits(mask, 0);
    assert(mask >> 0u8 == 0 ==> mask == 0) by (bit_vector);
}

/// Two masks with the same pins are the same word.
pub proof fn lemma_same_pins(a: u64, b: u64)
    requires
        forall|pin: u8| has_pin(a, pin) == has_pin(b, pin),
    ensures
        a == b,
{
    assert forall|pin: u8| !has_pin(a & !b, pin) by {
        lemma_minus_pins(a, b, pin);
    }
    assert forall|pin: u8| !has_pin(b & !a, pin) by {
        lemma_minus_pins(b, a, pin);
    }
    lemma_all_clear(a & !b);
    lemma_all_clear(b & !a);
    assert(a & !b == 0 && b & !a == 0 ==> a == b) by (bit_vector);
}

/// Pin N is in a mask exactly when bit N of the word is 1, and only pins up to 63 can be.
pub proof fn pins_are_bits(mask: u64, pin: u8)
    ensures
        pin < 64 ==> (has_pin(mask, pin) <==> (mask >> pin) & 1u64 == 1),
        pin >= 64 ==> !has_pin(mask, pin),
        pin_set(mask).contains(pin) <==> has_pin(mask, pin),
{
    assert(pin < 64 ==> (mask & (1u64 << pin) != 0) == ((mask >> pin) & 1u64 == 1)) by (bit_vector);
}

} // verus!
