//! Fixed-width scalars: integers, `bool` and `char`, little-endian.
use vstd::layout::size_of;
use vstd::prelude::*;
use vstd::utf8::{char_is_scalar, char_u32_cast, is_scalar};

use crate::error::Error;
use crate::little_endian::{
    le_bytes, lemma_pow256_16, lemma_read_fixed_prefix, lemma_read_fixed_round_trip, read_le, spec_read_fixed, write_le,
};
use crate::serialize::{group_cursor, Decoded, Encoded, Serialize, Size};

verus! {

broadcast use group_cursor;

impl Serialize for u8 {
    open spec fn spec_into_bytes(v: u8, sw: nat) -> Encoded {
        Ok(le_bytes(v as nat, 1))
    }

    open spec fn spec_from_bytes(b: Seq<u8>, sw: nat) -> Decoded<u8> {
        match spec_read_fixed(b, 1) {
            Ok(n) => Ok((n as u8, 1)),
            Err(e) => Err((e, 0)),
        }
    }

    proof fn lemma_from_bytes_len(b: Seq<u8>, sw: nat) {
    }

    proof fn lemma_prefix_tolerance(b: Seq<u8>, rest: Seq<u8>, sw: nat) {
        lemma_read_fixed_prefix(b, rest, 1);
    }

    proof fn lemma_round_trip(v: u8, sw: nat, rest: Seq<u8>) {
        lemma_pow256_16();
        lemma_read_fixed_round_trip(v as nat, 1, rest);
    }

    fn from_bytes<S: Size>(b: &mut &[u8]) -> (r: Result<u8, Error>) {
        proof {
            lemma_pow256_16();
        }
        let n = read_le(1, b)?;
        Ok(n as u8)
    }

    fn into_bytes<S: Size>(&self, b: &mut Vec<u8>) -> (r: Result<(), Error>) {
        write_le(*self as u128, 1, b);
        Ok(())
    }
}

impl Serialize for u16 {
    open spec fn spec_into_bytes(v: u16, sw: nat) -> Encoded {
        Ok(le_bytes(v as nat, 2))
    }

    open spec fn spec_from_bytes(b: Seq<u8>, sw: nat) -> Decoded<u16> {
        match spec_read_fixed(b, 2) {
            Ok(n) => Ok((n as u16, 2)),
            Err(e) => Err((e, 0)),
        }
    }

    proof fn lemma_from_bytes_len(b: Seq<u8>, sw: nat) {
    }

    proof fn lemma_prefix_tolerance(b: Seq<u8>, rest: Seq<u8>, sw: nat) {
        lemma_read_fixed_prefix(b, rest, 2);
    }

    proof fn lemma_round_trip(v: u16, sw: nat, rest: Seq<u8>) {
        lemma_pow256_16();
        lemma_read_fixed_round_trip(v as nat, 2, rest);
    }

    fn from_bytes<S: Size>(b: &mut &[u8]) -> (r: Result<u16, Error>) {
        proof {
            lemma_pow256_16();
        }
        let n = read_le(2, b)?;
        Ok(n as u16)
    }

    fn into_bytes<S: Size>(&self, b: &mut Vec<u8>) -> (r: Result<(), Error>) {
        write_le(*self as u128, 2, b);
        Ok(())
    }
}

impl Serialize for u32 {
    open spec fn spec_into_bytes(v: u32, sw: nat) -> Encoded {
        Ok(le_bytes(v as nat, 4))
    }

    open spec fn spec_from_bytes(b: Seq<u8>, sw: nat) -> Decoded<u32> {
        match spec_read_fixed(b, 4) {
            Ok(n) => Ok((n as u32, 4)),
            Err(e) => Err((e, 0)),
        }
    }

    proof fn lemma_from_bytes_len(b: Seq<u8>, sw: nat) {
    }

    proof fn lemma_prefix_tolerance(b: Seq<u8>, rest: Seq<u8>, sw: nat) {
        lemma_read_fixed_prefix(b, rest, 4);
    }

    proof fn lemma_round_trip(v: u32, sw: nat, rest: Seq<u8>) {
        lemma_pow256_16();
        lemma_read_fixed_round_trip(v as nat, 4, rest);
    }

    fn from_bytes<S: Size>(b: &mut &[u8]) -> (r: Result<u32, Error>) {
        proof {
            lemma_pow256_16();
        }
        let n = read_le(4, b)?;
        Ok(n as u32)
    }

    fn into_bytes<S: Size>(&self, b: &mut Vec<u8>) -> (r: Result<(), Error>) {
        write_le(*self as u128, 4, b);
        Ok(())
    }
}

impl Serialize for u64 {
    open spec fn spec_into_bytes(v: u64, sw: nat) -> Encoded {
        Ok(le_bytes(v as nat, 8))
    }

    open spec fn spec_from_bytes(b: Seq<u8>, sw: nat) -> Decoded<u64> {
        match spec_read_fixed(b, 8) {
            Ok(n) => Ok((n as u64, 8)),
            Err(e) => Err((e, 0)),
        }
    }

    proof fn lemma_from_bytes_len(b: Seq<u8>, sw: nat) {
    }

    proof fn lemma_prefix_tolerance(b: Seq<u8>, rest: Seq<u8>, sw: nat) {
        lemma_read_fixed_prefix(b, rest, 8);
    }

    proof fn lemma_round_trip(v: u64, sw: nat, rest: Seq<u8>) {
        lemma_pow256_16();
        lemma_read_fixed_round_trip(v as nat, 8, rest);
    }

    fn from_bytes<S: Size>(b: &mut &[u8]) -> (r: Result<u64, Error>) {
        proof {
            lemma_pow256_16();
        }
        let n = read_le(8, b)?;
        Ok(n as u64)
    }

    fn into_bytes<S: Size>(&self, b: &mut Vec<u8>) -> (r: Result<(), Error>) {
        write_le(*self as u128, 8, b);
        Ok(())
    }
}

impl Serialize for u128 {
    open spec fn spec_into_bytes(v: u128, sw: nat) -> Encoded {
        Ok(le_bytes(v as nat, 16))
    }

    open spec fn spec_from_bytes(b: Seq<u8>, sw: nat) -> Decoded<u128> {
        match spec_read_fixed(b, 16) {
            Ok(n) => Ok((n as u128, 16)),
            Err(e) => Err((e, 0)),
        }
    }

    proof fn lemma_from_bytes_len(b: Seq<u8>, sw: nat) {
    }

    proof fn lemma_prefix_tolerance(b: Seq<u8>, rest: Seq<u8>, sw: nat) {
        lemma_read_fixed_prefix(b, rest, 16);
    }

    proof fn lemma_round_trip(v: u128, sw: nat, rest: Seq<u8>) {
        lemma_pow256_16();
        lemma_read_fixed_round_trip(v as nat, 16, rest);
    }

    fn from_bytes<S: Size>(b: &mut &[u8]) -> (r: Result<u128, Error>) {
        proof {
            lemma_pow256_16();
        }
        let n = read_le(16, b)?;
        Ok(n as u128)
    }

    fn into_bytes<S: Size>(&self, b: &mut Vec<u8>) -> (r: Result<(), Error>) {
        write_le(*self as u128, 16, b);
        Ok(())
    }
}

impl Serialize for i8 {
    open spec fn spec_into_bytes(v: i8, sw: nat) -> Encoded {
        Ok(le_bytes((v as u8) as nat, 1))
    }

    open spec fn spec_from_bytes(b: Seq<u8>, sw: nat) -> Decoded<i8> {
        match spec_read_fixed(b, 1) {
            Ok(n) => Ok(((n as u8) as i8, 1)),
            Err(e) => Err((e, 0)),
        }
    }

    proof fn lemma_from_bytes_len(b: Seq<u8>, sw: nat) {
    }

    proof fn lemma_prefix_tolerance(b: Seq<u8>, rest: Seq<u8>, sw: nat) {
        lemma_read_fixed_prefix(b, rest, 1);
    }

    proof fn lemma_round_trip(v: i8, sw: nat, rest: Seq<u8>) {
        let x = v;
        lemma_pow256_16();
        lemma_read_fixed_round_trip((x as u8) as nat, 1, rest);
        assert((x as u8) as i8 == x) by (bit_vector);
    }

    fn from_bytes<S: Size>(b: &mut &[u8]) -> (r: Result<i8, Error>) {
        proof {
            lemma_pow256_16();
        }
        let n = read_le(1, b)?;
        Ok((n as u8) as i8)
    }

    fn into_bytes<S: Size>(&self, b: &mut Vec<u8>) -> (r: Result<(), Error>) {
        write_le((*self as u8) as u128, 1, b);
        Ok(())
    }
}

impl Serialize for i16 {
    open spec fn spec_into_bytes(v: i16, sw: nat) -> Encoded {
        Ok(le_bytes((v as u16) as nat, 2))
    }

    open spec fn spec_from_bytes(b: Seq<u8>, sw: nat) -> Decoded<i16> {
        match spec_read_fixed(b, 2) {
            Ok(n) => Ok(((n as u16) as i16, 2)),
            Err(e) => Err((e, 0)),
        }
    }

    proof fn lemma_from_bytes_len(b: Seq<u8>, sw: nat) {
    }

    proof fn lemma_prefix_tolerance(b: Seq<u8>, rest: Seq<u8>, sw: nat) {
        lemma_read_fixed_prefix(b, rest, 2);
    }

    proof fn lemma_round_trip(v: i16, sw: nat, rest: Seq<u8>) {
        let x = v;
        lemma_pow256_16();
        lemma_read_fixed_round_trip((x as u16) as nat, 2, rest);
        assert((x as u16) as i16 == x) by (bit_vector);
    }

    fn from_bytes<S: Size>(b: &mut &[u8]) -> (r: Result<i16, Error>) {
        proof {
            lemma_pow256_16();
        }
        let n = read_le(2, b)?;
        Ok((n as u16) as i16)
    }

    fn into_bytes<S: Size>(&self, b: &mut Vec<u8>) -> (r: Result<(), Error>) {
        write_le((*self as u16) as u128, 2, b);
        Ok(())
    }
}

impl Serialize for i32 {
    open spec fn spec_into_bytes(v: i32, sw: nat) -> Encoded {
        Ok(le_bytes((v as u32) as nat, 4))
    }

    open spec fn spec_from_bytes(b: Seq<u8>, sw: nat) -> Decoded<i32> {
        match spec_read_fixed(b, 4) {
            Ok(n) => Ok(((n as u32) as i32, 4)),
            Err(e) => Err((e, 0)),
        }
    }

    proof fn lemma_from_bytes_len(b: Seq<u8>, sw: nat) {
    }

    proof fn lemma_prefix_tolerance(b: Seq<u8>, rest: Seq<u8>, sw: nat) {
        lemma_read_fixed_prefix(b, rest, 4);
    }

    proof fn lemma_round_trip(v: i32, sw: nat, rest: Seq<u8>) {
        let x = v;
        lemma_pow256_16();
        lemma_read_fixed_round_trip((x as u32) as nat, 4, rest);
        assert((x as u32) as i32 == x) by (bit_vector);
    }

    fn from_bytes<S: Size>(b: &mut &[u8]) -> (r: Result<i32, Error>) {
        proof {
            lemma_pow256_16();
        }
        let n = read_le(4, b)?;
        Ok((n as u32) as i32)
    }

    fn into_bytes<S: Size>(&self, b: &mut Vec<u8>) -> (r: Result<(), Error>) {
        write_le((*self as u32) as u128, 4, b);
        Ok(())
    }
}

impl Serialize for i64 {
    open spec fn spec_into_bytes(v: i64, sw: nat) -> Encoded {
        Ok(le_bytes((v as u64) as nat, 8))
    }

    open spec fn spec_from_bytes(b: Seq<u8>, sw: nat) -> Decoded<i64> {
        match spec_read_fixed(b, 8) {
            Ok(n) => Ok(((n as u64) as i64, 8)),
            Err(e) => Err((e, 0)),
        }
    }

    proof fn lemma_from_bytes_len(b: Seq<u8>, sw: nat) {
    }

    proof fn lemma_prefix_tolerance(b: Seq<u8>, rest: Seq<u8>, sw: nat) {
        lemma_read_fixed_prefix(b, rest, 8);
    }

    proof fn lemma_round_trip(v: i64, sw: nat, rest: Seq<u8>) {
        let x = v;
        lemma_pow256_16();
        lemma_read_fixed_round_trip((x as u64) as nat, 8, rest);
        assert((x as u64) as i64 == x) by (bit_vector);
    }

    fn from_bytes<S: Size>(b: &mut &[u8]) -> (r: Result<i64, Error>) {
        proof {
            lemma_pow256_16();
        }
        let n = read_le(8, b)?;
        Ok((n as u64) as i64)
    }

    fn into_bytes<S: Size>(&self, b: &mut Vec<u8>) -> (r: Result<(), Error>) {
        write_le((*self as u64) as u128, 8, b);
        Ok(())
    }
}

impl Serialize for i128 {
    open spec fn spec_into_bytes(v: i128, sw: nat) -> Encoded {
        Ok(le_bytes((v as u128) as nat, 16))
    }

    open spec fn spec_from_bytes(b: Seq<u8>, sw: nat) -> Decoded<i128> {
        match spec_read_fixed(b, 16) {
            Ok(n) => Ok(((n as u128) as i128, 16)),
            Err(e) => Err((e, 0)),
        }
    }

    proof fn lemma_from_bytes_len(b: Seq<u8>, sw: nat) {
    }

    proof fn lemma_prefix_tolerance(b: Seq<u8>, rest: Seq<u8>, sw: nat) {
        lemma_read_fixed_prefix(b, rest, 16);
    }

    proof fn lemma_round_trip(v: i128, sw: nat, rest: Seq<u8>) {
        let x = v;
        lemma_pow256_16();
        lemma_read_fixed_round_trip((x as u128) as nat, 16, rest);
        assert((x as u128) as i128 == x) by (bit_vector);
    }

    fn from_bytes<S: Size>(b: &mut &[u8]) -> (r: Result<i128, Error>) {
        proof {
            lemma_pow256_16();
        }
        let n = read_le(16, b)?;
        Ok((n as u128) as i128)
    }

    fn into_bytes<S: Size>(&self, b: &mut Vec<u8>) -> (r: Result<(), Error>) {
        write_le((*self as u128) as u128, 16, b);
        Ok(())
    }
}

impl Serialize for usize {
    /// Written as eight bytes whatever the target's pointer width, so that the encoding does
    /// not depend on the machine; a value that does not fit this target's `usize` is too large.
    open spec fn spec_into_bytes(v: usize, sw: nat) -> Encoded {
        Ok(le_bytes(v as nat, 8))
    }

    open spec fn spec_from_bytes(b: Seq<u8>, sw: nat) -> Decoded<usize> {
        match spec_read_fixed(b, 8) {
            Ok(n) => if n <= usize::MAX {
                Ok((n as usize, 8))
            } else {
                Err((Error::TooLarge { needed_bytes: 8, max_bytes: size_of::<usize>() as u32 }, 8))
            },
            Err(e) => Err((e, 0)),
        }
    }

    proof fn lemma_from_bytes_len(b: Seq<u8>, sw: nat) {
    }

    proof fn lemma_prefix_tolerance(b: Seq<u8>, rest: Seq<u8>, sw: nat) {
        lemma_read_fixed_prefix(b, rest, 8);
    }

    proof fn lemma_round_trip(v: usize, sw: nat, rest: Seq<u8>) {
        lemma_pow256_16();
        lemma_read_fixed_round_trip(v as nat, 8, rest);
    }

    fn from_bytes<S: Size>(b: &mut &[u8]) -> (r: Result<usize, Error>) {
        proof {
            lemma_pow256_16();
        }
        let n = read_le(8, b)?;
        if n <= usize::MAX as u128 {
            Ok(n as usize)
        } else {
            Err(Error::TooLarge { needed_bytes: 8, max_bytes: core::mem::size_of::<usize>() as u32 })
        }
    }

    fn into_bytes<S: Size>(&self, b: &mut Vec<u8>) -> (r: Result<(), Error>) {
        write_le(*self as u128, 8, b);
        Ok(())
    }
}

impl Serialize for isize {
    /// Written as eight bytes, two's complement, whatever the target's pointer width; a value
    /// that does not fit this target's `isize` is too large.
    open spec fn spec_into_bytes(v: isize, sw: nat) -> Encoded {
        Ok(le_bytes(((v as i64) as u64) as nat, 8))
    }

    open spec fn spec_from_bytes(b: Seq<u8>, sw: nat) -> Decoded<isize> {
        match spec_read_fixed(b, 8) {
            Ok(n) => {
                let x = (n as u64) as i64;
                if isize::MIN <= x <= isize::MAX {
                    Ok((x as isize, 8))
                } else {
                    Err((Error::TooLarge { needed_bytes: 8, max_bytes: size_of::<usize>() as u32 }, 8))
                }
            },
            Err(e) => Err((e, 0)),
        }
    }

    proof fn lemma_from_bytes_len(b: Seq<u8>, sw: nat) {
    }

    proof fn lemma_prefix_tolerance(b: Seq<u8>, rest: Seq<u8>, sw: nat) {
        lemma_read_fixed_prefix(b, rest, 8);
    }

    proof fn lemma_round_trip(v: isize, sw: nat, rest: Seq<u8>) {
        let y = v as i64;
        lemma_pow256_16();
        lemma_read_fixed_round_trip((y as u64) as nat, 8, rest);
        assert((y as u64) as i64 == y) by (bit_vector);
    }

    fn from_bytes<S: Size>(b: &mut &[u8]) -> (r: Result<isize, Error>) {
        proof {
            lemma_pow256_16();
        }
        let n = read_le(8, b)?;
        let x = (n as u64) as i64;
        if isize::MIN as i64 <= x && x <= isize::MAX as i64 {
            Ok(x as isize)
        } else {
            Err(Error::TooLarge { needed_bytes: 8, max_bytes: core::mem::size_of::<usize>() as u32 })
        }
    }

    fn into_bytes<S: Size>(&self, b: &mut Vec<u8>) -> (r: Result<(), Error>) {
        write_le(((*self as i64) as u64) as u128, 8, b);
        Ok(())
    }
}

impl Serialize for bool {
    /// One byte: `0` for `false`, `1` for `true`; any other byte is out of range.
    open spec fn spec_into_bytes(v: bool, sw: nat) -> Encoded {
        Ok(seq![if v { 1u8 } else { 0u8 }])
    }

    open spec fn spec_from_bytes(b: Seq<u8>, sw: nat) -> Decoded<bool> {
        if b.len() == 0 {
            Err((Error::ExpectedBytes(1), 0))
        } else if b[0] == 0 {
            Ok((false, 1))
        } else if b[0] == 1 {
            Ok((true, 1))
        } else {
            Err((Error::ExpectedRange { start: 0, end: 1 }, 1))
        }
    }

    proof fn lemma_from_bytes_len(b: Seq<u8>, sw: nat) {
    }

    proof fn lemma_prefix_tolerance(b: Seq<u8>, rest: Seq<u8>, sw: nat) {
        if b.len() > 0 {
            assert((b + rest)[0] == b[0]);
        }
    }

    proof fn lemma_round_trip(v: bool, sw: nat, rest: Seq<u8>) {
        let e = seq![if v { 1u8 } else { 0u8 }];
        assert((e + rest)[0] == e[0]);
    }

    fn from_bytes<S: Size>(b: &mut &[u8]) -> (r: Result<bool, Error>) {
        if b.len() == 0 {
            return Err(Error::ExpectedBytes(1));
        }
        let byte = b[0];
        let (_, rest) = b.split_at(1);
        *b = rest;
        match byte {
            0 => Ok(false),
            1 => Ok(true),
            _ => Err(Error::ExpectedRange { start: 0, end: 1 }),
        }
    }

    fn into_bytes<S: Size>(&self, b: &mut Vec<u8>) -> (r: Result<(), Error>) {
        b.push(if *self { 1 } else { 0 });
        assert(b@ =~= old(b)@ + seq![if *self { 1u8 } else { 0u8 }]);
        Ok(())
    }
}

/// Relies on `char::from_u32`: it returns the `char` with the given code exactly when the code
/// is a Unicode scalar value.
#[verifier::external_body]
fn char_from_u32(n: u32) -> (r: Option<char>)
    ensures
        match r {
            Some(c) => is_scalar(n) && c as u32 == n,
            None => !is_scalar(n),
        },
{
    char::from_u32(n)
}

impl Serialize for char {
    /// The character's code as four bytes; a code that is not a Unicode scalar value is invalid.
    open spec fn spec_into_bytes(v: char, sw: nat) -> Encoded {
        Ok(le_bytes((v as u32) as nat, 4))
    }

    open spec fn spec_from_bytes(b: Seq<u8>, sw: nat) -> Decoded<char> {
        match spec_read_fixed(b, 4) {
            Ok(n) => if is_scalar(n as u32) {
                Ok(((n as u32) as char, 4))
            } else {
                Err((Error::InvalidChar, 4))
            },
            Err(e) => Err((e, 0)),
        }
    }

    proof fn lemma_from_bytes_len(b: Seq<u8>, sw: nat) {
    }

    proof fn lemma_prefix_tolerance(b: Seq<u8>, rest: Seq<u8>, sw: nat) {
        lemma_read_fixed_prefix(b, rest, 4);
    }

    proof fn lemma_round_trip(v: char, sw: nat, rest: Seq<u8>) {
        let u = v as u32;
        lemma_pow256_16();
        lemma_read_fixed_round_trip(u as nat, 4, rest);
        char_is_scalar(v);
        char_u32_cast(v, u);
    }

    fn from_bytes<S: Size>(b: &mut &[u8]) -> (r: Result<char, Error>) {
        proof {
            lemma_pow256_16();
        }
        let n = read_le(4, b)?;
        match char_from_u32(n as u32) {
            Some(c) => {
                proof {
                    char_u32_cast(c, n as u32);
                }
                Ok(c)
            },
            None => Err(Error::InvalidChar),
        }
    }

    fn into_bytes<S: Size>(&self, b: &mut Vec<u8>) -> (r: Result<(), Error>) {
        write_le((*self as u32) as u128, 4, b);
        Ok(())
    }
}

impl Size for u8 {
    open spec fn width() -> nat {
        1
    }

    open spec fn count(&self) -> nat {
        *self as nat
    }

    fn byte_width() -> (r: u32) {
        1
    }

    fn from_count(n: usize) -> (r: Option<u8>) {
        proof {
            lemma_pow256_16();
        }
        if n as u128 <= 0xff {
            Some(n as u8)
        } else {
            None
        }
    }

    fn to_count(&self) -> (r: Option<usize>) {
        if *self as u128 <= usize::MAX as u128 {
            Some(*self as usize)
        } else {
            None
        }
    }

    fn write_count(&self, b: &mut Vec<u8>) {
        write_le(*self as u128, 1, b);
    }

    fn read_count(b: &mut &[u8]) -> (r: Result<u8, Error>) {
        proof {
            lemma_pow256_16();
        }
        let n = read_le(1, b)?;
        Ok(n as u8)
    }
}

impl Size for u16 {
    open spec fn width() -> nat {
        2
    }

    open spec fn count(&self) -> nat {
        *self as nat
    }

    fn byte_width() -> (r: u32) {
        2
    }

    fn from_count(n: usize) -> (r: Option<u16>) {
        proof {
            lemma_pow256_16();
        }
        if n as u128 <= 0xffff {
            Some(n as u16)
        } else {
            None
        }
    }

    fn to_count(&self) -> (r: Option<usize>) {
        if *self as u128 <= usize::MAX as u128 {
            Some(*self as usize)
        } else {
            None
        }
    }

    fn write_count(&self, b: &mut Vec<u8>) {
        write_le(*self as u128, 2, b);
    }

    fn read_count(b: &mut &[u8]) -> (r: Result<u16, Error>) {
        proof {
            lemma_pow256_16();
        }
        let n = read_le(2, b)?;
        Ok(n as u16)
    }
}

impl Size for u32 {
    open spec fn width() -> nat {
        4
    }

    open spec fn count(&self) -> nat {
        *self as nat
    }

    fn byte_width() -> (r: u32) {
        4
    }

    fn from_count(n: usize) -> (r: Option<u32>) {
        proof {
            lemma_pow256_16();
        }
        if n as u128 <= 0xffff_ffff {
            Some(n as u32)
        } else {
            None
        }
    }

    fn to_count(&self) -> (r: Option<usize>) {
        if *self as u128 <= usize::MAX as u128 {
            Some(*self as usize)
        } else {
            None
        }
    }

    fn write_count(&self, b: &mut Vec<u8>) {
        write_le(*self as u128, 4, b);
    }

    fn read_count(b: &mut &[u8]) -> (r: Result<u32, Error>) {
        proof {
            lemma_pow256_16();
        }
        let n = read_le(4, b)?;
        Ok(n as u32)
    }
}

impl Size for u64 {
    open spec fn width() -> nat {
        8
    }

    open spec fn count(&self) -> nat {
        *self as nat
    }

    fn byte_width() -> (r: u32) {
        8
    }

    fn from_count(n: usize) -> (r: Option<u64>) {
        proof {
            lemma_pow256_16();
        }
        if n as u128 <= 0xffff_ffff_ffff_ffff {
            Some(n as u64)
        } else {
            None
        }
    }

    fn to_count(&self) -> (r: Option<usize>) {
        if *self as u128 <= usize::MAX as u128 {
            Some(*self as usize)
        } else {
            None
        }
    }

    fn write_count(&self, b: &mut Vec<u8>) {
        write_le(*self as u128, 8, b);
    }

    fn read_count(b: &mut &[u8]) -> (r: Result<u64, Error>) {
        proof {
            lemma_pow256_16();
        }
        let n = read_le(8, b)?;
        Ok(n as u64)
    }
}

} // verus!
