//! Properties that hold of every encodable value.
use vstd::prelude::*;

use crate::error::Error;
use crate::little_endian::pow256;
use crate::serialize::{bytes_needed, view_of, Decoded, Encoded, Serialize};

verus! {

/// Decoding the encoding of a value gives the value back and takes up exactly the bytes that
/// encoding produced, for every value whose encoding succeeds.
pub proof fn round_trip<T: Serialize>(v: T, sw: nat)
    requires
        T::spec_into_bytes(v.deep_view(), sw) is Ok,
    ensures
        ({
            let e = T::spec_into_bytes(v.deep_view(), sw)->Ok_0;
            T::spec_from_bytes(e, sw) == Decoded::Ok((v.deep_view(), e.len()))
        }),
{
    let e = T::spec_into_bytes(v.deep_view(), sw)->Ok_0;
    assert(view_of::<T>(v) == v.deep_view());
    T::lemma_round_trip(v.deep_view(), sw, seq![]);
    assert(e + seq![] =~= e);
}

/// Bytes that follow a value's encoding change nothing: decoding succeeds the same way and
/// takes up the same bytes whether or not they are there.
pub proof fn prefix_tolerance<T: Serialize>(v: T, sw: nat, rest: Seq<u8>)
    requires
        T::spec_into_bytes(v.deep_view(), sw) is Ok,
    ensures
        ({
            let e = T::spec_into_bytes(v.deep_view(), sw)->Ok_0;
            T::spec_from_bytes(e + rest, sw) == T::spec_from_bytes(e, sw)
        }),
{
    round_trip(v, sw);
    assert(view_of::<T>(v) == v.deep_view());
    T::lemma_round_trip(v.deep_view(), sw, rest);
}

/// Bytes after what a successful decoding takes up change nothing: whatever follows, decoding
/// gives the same value and takes up the same bytes.
pub proof fn decoding_prefix_tolerance<T: Serialize>(b: Seq<u8>, rest: Seq<u8>, sw: nat)
    requires
        T::spec_from_bytes(b, sw) is Ok,
    ensures
        T::spec_from_bytes(b + rest, sw) == T::spec_from_bytes(b, sw),
{
    T::lemma_prefix_tolerance(b, rest, sw);
}

/// A sequence longer than the length prefix can count has no encoding: it is too large, with
/// the bytes its length needs and the bytes the prefix has, and nothing at all is written (no
/// truncated or wrapped length).
pub proof fn length_overflow<B: Serialize>(v: Seq<<B as DeepView>::V>, sw: nat)
    requires
        v.len() >= pow256(sw),
    ensures
        <Vec<B> as Serialize>::spec_into_bytes(v, sw) == Encoded::Err(
            (
                Error::TooLarge { needed_bytes: bytes_needed(v.len()) as u32, max_bytes: sw as u32 },
                Seq::<u8>::empty(),
            ),
        ),
{
}

} // verus!
