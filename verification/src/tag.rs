//! Bit-field tag codec for per-record metadata.
//!
//! A record's metadata is packed into one `u32`: three flag bits (dummy,
//! filler, excess) in the low bits and a 16-bit bin index in the high bits.
//! Every operation here is plain integer arithmetic on the whole word, with
//! the field selected by a mask, so tag handling introduces no data-dependent
//! control flow of its own.

use vstd::prelude::*;

verus! {

/// Flag bit: a caller-supplied placeholder record that must never be
/// returned by a lookup.
pub const TAG_DUMMY: u32 = 0x1;

/// Flag bit: a synthetic padding record injected by the build pipeline.
pub const TAG_FILLER: u32 = 0x2;

/// Flag bit: a record that exceeded its bin's capacity in the current pass.
pub const TAG_EXCESS: u32 = 0x4;

/// Multi-bit field: the 16-bit bin index assigned by the keyed hash.
pub const TAG_BIN_IDX: u32 = 0xffff_0000;

/// The concrete shift amount of each tag field: the position of the
/// field's lowest set bit.
pub proof fn lemma_tag_field_shifts()
    ensures
        TAG_DUMMY.trailing_zeros() == 0,
        TAG_FILLER.trailing_zeros() == 1,
        TAG_EXCESS.trailing_zeros() == 2,
        TAG_BIN_IDX.trailing_zeros() == 16,
{
    vstd::std_specs::bits::axiom_u32_trailing_zeros(TAG_DUMMY);
    vstd::std_specs::bits::axiom_u32_trailing_zeros(TAG_FILLER);
    vstd::std_specs::bits::axiom_u32_trailing_zeros(TAG_EXCESS);
    vstd::std_specs::bits::axiom_u32_trailing_zeros(TAG_BIN_IDX);
    assert(forall|t: u32| t < 32 && (0x1u32 >> t) & 1u32 == 1u32 ==> t == 0) by (bit_vector);
    assert(forall|t: u32| t < 32 && (0x2u32 >> t) & 1u32 == 1u32 ==> t == 1) by (bit_vector);
    assert(forall|t: u32| t < 32 && (0x4u32 >> t) & 1u32 == 1u32 ==> t == 2) by (bit_vector);
    assert(forall|t: u32| t < 32 && (0xffff_0000u32 >> t) & 1u32 == 1u32 ==> t >= 16)
        by (bit_vector);
    assert((0xffff_0000u32 >> 16u32) & 1u32 == 1u32) by (bit_vector);
}

/// A fresh tag with every flag clear and an empty bin-index field.
pub fn init() -> (r: u32)
    ensures
        r == 0,
{
    0
}

/// Set the flag bits selected by `tag`.
pub fn set(x: u32, tag: u32) -> (r: u32)
    ensures
        r == (x | tag),
{
    x | tag
}

/// Clear the flag bits selected by `tag`.
pub fn unset(x: u32, tag: u32) -> (r: u32)
    ensures
        r == (x & !tag),
{
    x & !tag
}

/// True when some flag bit selected by `tag` is set.
pub fn check(x: u32, tag: u32) -> (r: bool)
    ensures
        r == ((x & tag) != 0),
{
    x & tag > 0
}

/// True when every flag bit selected by `tag` is clear.
pub fn check_not(x: u32, tag: u32) -> (r: bool)
    ensures
        r == ((x & tag) == 0),
{
    x & tag == 0
}

/// Read the field selected by `tag`, shifted down to its lowest bit.
pub fn get(x: u32, tag: u32) -> (r: u32)
    requires
        tag != 0,
    ensures
        r == (x & tag) >> tag.trailing_zeros(),
{
    proof {
        vstd::std_specs::bits::axiom_u32_trailing_zeros(tag);
    }
    (x & tag) >> tag.trailing_zeros()
}

/// Write `val` into the field selected by `tag`, masking away any bits of
/// `val` that do not fit the field.
pub fn set_val(x: u32, tag: u32, val: u32) -> (r: u32)
    requires
        tag != 0,
    ensures
        r == (x | ((val << tag.trailing_zeros()) & tag)),
{
    proof {
        vstd::std_specs::bits::axiom_u32_trailing_zeros(tag);
    }
    x | ((val << tag.trailing_zeros()) & tag)
}

/// Write `val` into the field selected by `tag`, without the masking step.
/// The caller guarantees that `val` already fits the field's width.
pub fn set_val_fit(x: u32, tag: u32, val: u32) -> (r: u32)
    requires
        tag != 0,
    ensures
        r == (x | (val << tag.trailing_zeros())),
{
    proof {
        vstd::std_specs::bits::axiom_u32_trailing_zeros(tag);
    }
    x | (val << tag.trailing_zeros())
}

} // verus!
