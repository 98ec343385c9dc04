//! Tags of tagged unions: a variant's position, written as narrow as the variant count allows.
//!
//! A sum type with `variants` variants numbers them `0..variants` in declaration order. Its
//! encoding is the tag of the variant, `tag_width(variants)` bytes wide, followed by the
//! variant's fields in declaration order.
use vstd::prelude::*;

use crate::error::Error;
use crate::little_endian::{
    le_bytes, lemma_pow256_16, lemma_pow256_mono, lemma_read_fixed_round_trip, pow256, read_le,
    spec_read_fixed, write_le,
};
use crate::serialize::group_cursor;

verus! {

broadcast use group_cursor;

/// The width in bytes of the tags of a sum type with `variants` variants: the narrowest of
/// 1, 2, 4, 8 and 16 bytes that holds the last tag, `variants - 1` (a type with one variant, or
/// none, still takes one byte).
pub open spec fn spec_tag_width(variants: nat) -> nat {
    let last = if variants == 0 {
        0
    } else {
        (variants - 1) as nat
    };
    if last < pow256(1) {
        1
    } else if last < pow256(2) {
        2
    } else if last < pow256(4) {
        4
    } else if last < pow256(8) {
        8
    } else {
        16
    }
}

/// The bytes of the tag `tag` of a sum type with `variants` variants.
pub open spec fn spec_tag_bytes(tag: nat, variants: nat) -> Seq<u8> {
    le_bytes(tag, spec_tag_width(variants))
}

/// Reading the tag of a sum type with `variants` variants from the front of `b`: the tag, or
/// the error and the number of bytes read before it was met (none when the bytes run out, the
/// whole tag when it names no variant).
pub open spec fn spec_read_tag(b: Seq<u8>, variants: nat) -> Result<nat, (Error, nat)> {
    match spec_read_fixed(b, spec_tag_width(variants)) {
        Ok(t) => if t < variants {
            Ok(t)
        } else {
            Err(
                (
                    Error::ExpectedRange { start: 0, end: (variants - 1) as u64 },
                    spec_tag_width(variants),
                ),
            )
        },
        Err(e) => Err((e, 0)),
    }
}

/// The tag width is one byte up to 256 variants, two up to 65536, four up to `2^32`, eight
/// beyond: crossing one of these counts changes the width of every variant's tag.
pub proof fn lemma_tag_width(variants: nat)
    ensures
        variants <= 0x100 ==> spec_tag_width(variants) == 1,
        0x100 < variants <= 0x1_0000 ==> spec_tag_width(variants) == 2,
        0x1_0000 < variants <= 0x1_0000_0000 ==> spec_tag_width(variants) == 4,
        0x1_0000_0000 < variants <= 0x1_0000_0000_0000_0000 ==> spec_tag_width(variants) == 8,
        forall|tag: nat| #[trigger] spec_tag_bytes(tag, variants).len() == spec_tag_width(variants),
{
    lemma_pow256_16();
}

/// A tag below the variant count is read back from its bytes, whatever follows them.
pub proof fn lemma_tag_round_trip(tag: nat, variants: nat, rest: Seq<u8>)
    requires
        tag < variants <= pow256(16),
    ensures
        spec_tag_bytes(tag, variants).len() == spec_tag_width(variants),
        spec_read_tag(spec_tag_bytes(tag, variants) + rest, variants) == Ok::<nat, (Error, nat)>(tag),
{
    lemma_pow256_16();
    let w = spec_tag_width(variants);
    lemma_read_fixed_round_trip(tag, w, rest);
}

/// The width in bytes of the tags of a sum type with `variants` variants.
pub fn tag_width(variants: usize) -> (r: usize)
    ensures
        r as nat == spec_tag_width(variants as nat),
        r <= 8,
{
    proof {
        lemma_pow256_16();
    }
    let last: usize = if variants == 0 {
        0
    } else {
        variants - 1
    };
    if last <= 0xff {
        1
    } else if last <= 0xffff {
        2
    } else if last as u64 <= 0xffff_ffff {
        4
    } else {
        8
    }
}

/// Appends the tag `tag` of a sum type with `variants` variants.
pub fn write_tag(tag: usize, variants: usize, b: &mut Vec<u8>)
    requires
        tag < variants,
    ensures
        final(b)@ == old(b)@ + spec_tag_bytes(tag as nat, variants as nat),
{
    let w = tag_width(variants);
    write_le(tag as u128, w, b);
}

/// Reads the tag of a sum type with `variants` variants from the front of the cursor `b`.
/// Fails with the missing byte count when the bytes run out, and with the range of valid tags
/// when the tag names no variant.
pub fn read_tag(variants: usize, b: &mut &[u8]) -> (r: Result<usize, Error>)
    requires
        variants >= 1,
    ensures
        match spec_read_tag(old(b)@, variants as nat) {
            Ok(t) => r == Ok::<usize, Error>(t as usize) && final(b)@ == old(b)@.skip(
                spec_tag_width(variants as nat) as int,
            ),
            Err((e, n)) => r == Err::<usize, Error>(e) && n <= old(b)@.len()
                && final(b)@ == old(b)@.skip(n as int),
        },
{
    let w = tag_width(variants);
    proof {
        lemma_pow256_16();
        lemma_pow256_mono(w as nat, 16);
    }
    let t = read_le(w, b)?;
    if t < variants as u128 {
        Ok(t as usize)
    } else {
        Err(Error::ExpectedRange { start: 0, end: (variants - 1) as u64 })
    }
}

} // verus!
