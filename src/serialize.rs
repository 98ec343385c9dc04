//! The encoding protocol and the length prefix of variable-length values.
use vstd::layout::size_of;
use vstd::prelude::*;

use crate::error::Error;
use crate::little_endian::{le_bytes, lemma_pow256_16, pow256, spec_read_fixed};

verus! {

/// The number of bytes that the shortest little-endian form of `n` needs (at least one).
pub open spec fn bytes_needed(n: nat) -> nat
    decreases n,
{
    if n < 256 {
        1
    } else {
        1 + bytes_needed(n / 256)
    }
}

/// The length prefix, `sw` bytes wide, that stands for a count of `n`; a count that the
/// prefix cannot hold, or that no `usize` could hold when read back, is too large.
pub open spec fn spec_len_bytes(n: nat, sw: nat) -> Result<Seq<u8>, Error> {
    if n < pow256(sw) && n <= usize::MAX {
        Ok(le_bytes(n, sw))
    } else {
        Err(Error::TooLarge { needed_bytes: bytes_needed(n) as u32, max_bytes: sw as u32 })
    }
}

/// Reading a length prefix `sw` bytes wide from the front of `b`: the count, or the error and
/// the number of bytes read before it was met (none when the bytes run out, the whole prefix
/// when the count does not fit a `usize`).
pub open spec fn spec_read_len(b: Seq<u8>, sw: nat) -> Result<nat, (Error, nat)> {
    match spec_read_fixed(b, sw) {
        Ok(n) => if n <= usize::MAX {
            Ok(n)
        } else {
            Err(
                (
                    Error::TooLarge { needed_bytes: sw as u32, max_bytes: size_of::<usize>() as u32 },
                    sw,
                ),
            )
        },
        Err(e) => Err((e, 0)),
    }
}

/// What decoding a value whose deep view has type `V` from the front of some bytes comes to:
/// the value and the number of bytes it takes up, or the error and the number of bytes that
/// were consumed when it was met.
pub type Decoded<V> = Result<(V, nat), (Error, nat)>;

/// What encoding a value comes to: its bytes, or the error and the bytes that were written
/// when it was met.
pub type Encoded = Result<Seq<u8>, (Error, Seq<u8>)>;

/// The facts about cursors and buffers that the codecs use throughout.
pub broadcast group group_cursor {
    lemma_skip_zero,
    lemma_add_empty,
    lemma_skip_skip,
    lemma_add_assoc,
}

/// The deep view of `x`.
pub open spec fn view_of<T: DeepView>(x: T) -> <T as DeepView>::V {
    x.deep_view()
}

/// `v` is the deep view of some value of type `T`.
pub open spec fn is_view<T: DeepView>(v: <T as DeepView>::V) -> bool {
    exists|x: T| #[trigger] view_of::<T>(x) == v
}

/// Skipping nothing leaves the bytes as they are.
pub broadcast proof fn lemma_skip_zero(s: Seq<u8>)
    ensures
        #[trigger] s.skip(0) == s,
{
    assert(s.skip(0) =~= s);
}

/// Appending nothing leaves the bytes as they are.
pub broadcast proof fn lemma_add_empty(s: Seq<u8>)
    ensures
        #[trigger] (s + Seq::<u8>::empty()) == s,
{
    assert(s + Seq::<u8>::empty() =~= s);
}

/// Skipping `a` elements and then `c` more is skipping `a + c`.
pub broadcast proof fn lemma_skip_skip(s: Seq<u8>, a: int, c: int)
    requires
        0 <= a,
        0 <= c,
        a + c <= s.len(),
    ensures
        #[trigger] s.skip(a).skip(c) == s.skip(a + c),
{
    assert(s.skip(a).skip(c) =~= s.skip(a + c));
}

/// Appending `x` and then `y` is appending `x + y`.
pub broadcast proof fn lemma_add_assoc(s: Seq<u8>, x: Seq<u8>, y: Seq<u8>)
    ensures
        #[trigger] ((s + x) + y) == s + (x + y),
{
    assert((s + x) + y =~= s + (x + y));
}

/// A value that can be written to bytes and read back.
///
/// The encoding of a value is described by `spec_into_bytes` over the value's deep view, and
/// decoding by `spec_from_bytes` over the bytes that remain. Both take the width `sw` in bytes
/// of the length prefix that variable-length values carry, which the [`Size`] witness `S` of
/// `into_bytes` and `from_bytes` fixes.
pub trait Serialize: Sized + DeepView {
    /// The bytes that encode a value whose deep view is `v`; or the error that encoding meets,
    /// with the bytes written before it.
    spec fn spec_into_bytes(v: <Self as DeepView>::V, sw: nat) -> Encoded;

    /// The value decoded from the front of `b` and the number of bytes it takes up; or the
    /// error that decoding meets, with the number of bytes consumed before it.
    spec fn spec_from_bytes(b: Seq<u8>, sw: nat) -> Decoded<<Self as DeepView>::V>;

    /// Decoding, whether it succeeds or fails, consumes no more bytes than there are.
    proof fn lemma_from_bytes_len(b: Seq<u8>, sw: nat)
        ensures
            match Self::spec_from_bytes(b, sw) {
                Ok((_, n)) => n <= b.len(),
                Err((_, n)) => n <= b.len(),
            },
    ;

    /// Bytes after what a successful decoding takes up change nothing: decoding the same bytes
    /// followed by `rest` gives the same value and takes up the same bytes.
    proof fn lemma_prefix_tolerance(b: Seq<u8>, rest: Seq<u8>, sw: nat)
        requires
            Self::spec_from_bytes(b, sw) is Ok,
        ensures
            Self::spec_from_bytes(b + rest, sw) == Self::spec_from_bytes(b, sw),
    ;

    /// Decoding the encoding of a value `v`, followed by any bytes at all, gives `v` back and
    /// takes up exactly the encoding.
    proof fn lemma_round_trip(v: <Self as DeepView>::V, sw: nat, rest: Seq<u8>)
        requires
            is_view::<Self>(v),
            Self::spec_into_bytes(v, sw) is Ok,
        ensures
            ({
                let e = Self::spec_into_bytes(v, sw)->Ok_0;
                Self::spec_from_bytes(e + rest, sw) == Decoded::Ok((v, e.len()))
            }),
    ;

    /// Decodes a value from the front of the cursor `b` and advances the cursor past it. On an
    /// error the cursor is left where the failing step left it, with no rollback.
    fn from_bytes<S: Size>(b: &mut &[u8]) -> (r: Result<Self, Error>)
        ensures
            match Self::spec_from_bytes(old(b)@, S::width()) {
                Ok((v, n)) => r matches Ok(x) && x.deep_view() == v && n <= old(b)@.len()
                    && final(b)@ == old(b)@.skip(n as int),
                Err((e, n)) => r == Err::<Self, Error>(e) && n <= old(b)@.len()
                    && final(b)@ == old(b)@.skip(n as int),
            },
    ;

    /// Appends the encoding of `self` to `b`. On an error `b` keeps what was written before it.
    fn into_bytes<S: Size>(&self, b: &mut Vec<u8>) -> (r: Result<(), Error>)
        ensures
            match Self::spec_into_bytes(self.deep_view(), S::width()) {
                Ok(e) => r == Ok::<(), Error>(()) && final(b)@ == old(b)@ + e,
                Err((e, w)) => r == Err::<(), Error>(e) && final(b)@ == old(b)@ + w,
            },
    ;
}

/// An unsigned integer type that writes the element count of variable-length values.
///
/// A narrow type keeps the encoding small and caps the length of every container; both sides
/// of a channel must use the same one. A count is written as `width()` little-endian bytes,
/// as the type's own [`Serialize`] encoding has it.
pub trait Size: Sized {
    /// The width in bytes of a value of this type.
    spec fn width() -> nat;

    /// The count that `self` stands for.
    spec fn count(&self) -> nat;

    /// The width in bytes of a value of this type.
    fn byte_width() -> (r: u32)
        ensures
            r as nat == Self::width(),
            1 <= r <= 16,
    ;

    /// The value that stands for a count of `n`, if this type can hold it.
    fn from_count(n: usize) -> (r: Option<Self>)
        ensures
            match r {
                Some(s) => n < pow256(Self::width()) && s.count() == n,
                None => n >= pow256(Self::width()),
            },
    ;

    /// The count that `self` stands for, if a `usize` can hold it.
    fn to_count(&self) -> (r: Option<usize>)
        ensures
            match r {
                Some(n) => n as nat == self.count(),
                None => self.count() > usize::MAX,
            },
    ;

    /// Appends `self` as `width()` little-endian bytes.
    fn write_count(&self, b: &mut Vec<u8>)
        ensures
            final(b)@ == old(b)@ + le_bytes(self.count(), Self::width()),
    ;

    /// Reads a value from the front of the cursor `b`, `width()` little-endian bytes; fails,
    /// leaving the cursor where it was, when fewer bytes remain.
    fn read_count(b: &mut &[u8]) -> (r: Result<Self, Error>)
        ensures
            match spec_read_fixed(old(b)@, Self::width()) {
                Ok(n) => r matches Ok(s) && s.count() == n && final(b)@ == old(b)@.skip(
                    Self::width() as int,
                ),
                Err(e) => r == Err::<Self, Error>(e) && final(b)@ == old(b)@,
            },
    ;
}

/// A number below `256^j` needs at most `j` bytes.
proof fn lemma_bytes_needed_bound(n: nat, j: nat)
    requires
        1 <= j,
        n < pow256(j),
    ensures
        1 <= bytes_needed(n) <= j,
    decreases j,
{
    if n >= 256 {
        assert(pow256(1) == 256) by {
            reveal_with_fuel(pow256, 2);
        }
        if j == 1 {
        } else {
            let p = pow256((j - 1) as nat);
            assert(n / 256 < p) by (nonlinear_arith)
                requires
                    n < 256 * p,
            ;
            lemma_bytes_needed_bound(n / 256, (j - 1) as nat);
        }
    }
}

/// The number of bytes that the shortest little-endian form of `n` needs.
fn count_bytes_needed(n: usize) -> (r: u32)
    ensures
        r as nat == bytes_needed(n as nat),
{
    proof {
        lemma_pow256_16();
        lemma_bytes_needed_bound(n as nat, 8);
    }
    let mut x: usize = n;
    let mut k: u32 = 1;
    while x >= 256
        invariant
            1 <= k,
            bytes_needed(n as nat) <= 8,
            k as nat + bytes_needed(x as nat) == 1 + bytes_needed(n as nat),
        decreases x,
    {
        x = x / 256;
        k = k + 1;
    }
    k
}

/// Appends the length prefix of a container of `len` elements, written with the size type
/// `S`; fails, writing nothing, when `S` cannot hold `len`.
pub fn push_len<S: Size>(len: usize, b: &mut Vec<u8>) -> (r: Result<(), Error>)
    ensures
        match spec_len_bytes(len as nat, S::width()) {
            Ok(e) => r == Ok::<(), Error>(()) && final(b)@ == old(b)@ + e,
            Err(e) => r == Err::<(), Error>(e) && final(b)@ == old(b)@,
        },
{
    match S::from_count(len) {
        Some(s) => {
            s.write_count(b);
            Ok(())
        },
        None => Err(Error::TooLarge { needed_bytes: count_bytes_needed(len), max_bytes: S::byte_width() }),
    }
}

/// Reads the length prefix of a container, written with the size type `S`, from the front of
/// the cursor `b`.
pub fn read_len<S: Size>(b: &mut &[u8]) -> (r: Result<usize, Error>)
    ensures
        match spec_read_len(old(b)@, S::width()) {
            Ok(n) => r == Ok::<usize, Error>(n as usize) && final(b)@ == old(b)@.skip(
                S::width() as int,
            ),
            Err((e, n)) => r == Err::<usize, Error>(e) && n <= old(b)@.len()
                && final(b)@ == old(b)@.skip(n as int),
        },
{
    let s = match S::read_count(b) {
        Ok(s) => s,
        Err(e) => {
            assert(b@ =~= old(b)@.skip(0));
            return Err(e);
        },
    };
    match s.to_count() {
        Some(n) => Ok(n),
        None => Err(
            Error::TooLarge {
                needed_bytes: S::byte_width(),
                max_bytes: core::mem::size_of::<usize>() as u32,
            },
        ),
    }
}

} // verus!
