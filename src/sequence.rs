//! Variable-length values: sequences and text, each behind a length prefix.
use vstd::prelude::*;
use vstd::utf8::{
    decode_utf8, encode_utf8, encode_utf8_decode_utf8, encode_utf8_valid_utf8, valid_utf8,
};

use crate::error::Error;
use crate::little_endian::{
    le_bytes, le_value, lemma_le_bytes_of_value, lemma_read_fixed_prefix,
    lemma_read_fixed_round_trip,
};
use crate::serialize::{
    group_cursor, is_view, push_len, view_of, read_len, spec_len_bytes, spec_read_len, Decoded, Encoded,
    Serialize, Size,
};

verus! {

broadcast use group_cursor;

/// The encodings of the elements of `s`, one after another; or the error of the first element
/// that cannot be encoded, with what was written up to it.
pub open spec fn spec_elems_into_bytes<B: Serialize>(s: Seq<<B as DeepView>::V>, sw: nat) -> Encoded
    decreases s.len(),
{
    if s.len() == 0 {
        Ok(seq![])
    } else {
        match spec_elems_into_bytes::<B>(s.drop_last(), sw) {
            Ok(f) => match B::spec_into_bytes(s.last(), sw) {
                Ok(e) => Ok(f + e),
                Err((x, w)) => Err((x, f + w)),
            },
            Err(x) => Err(x),
        }
    }
}

/// Decoding `k` elements one after another from the front of `b`: their views and the number
/// of bytes they take up; or the error of the first element that cannot be decoded, with the
/// number of bytes consumed up to where that element's decoding stopped.
pub open spec fn spec_elems_from_bytes<B: Serialize>(b: Seq<u8>, k: nat, sw: nat) -> Decoded<
    Seq<<B as DeepView>::V>,
>
    decreases k,
{
    if k == 0 {
        Ok((seq![], 0))
    } else {
        match spec_elems_from_bytes::<B>(b, (k - 1) as nat, sw) {
            Ok((vs, n)) => match B::spec_from_bytes(b.skip(n as int), sw) {
                Ok((v, m)) => Ok((vs.push(v), n + m)),
                Err((e, m)) => Err((e, n + m)),
            },
            Err(x) => Err(x),
        }
    }
}

/// Decoding `k` elements yields `k` of them, and consumes no more bytes than there are whether
/// it succeeds or fails.
pub proof fn lemma_elems_from_bytes_len<B: Serialize>(b: Seq<u8>, k: nat, sw: nat)
    ensures
        match spec_elems_from_bytes::<B>(b, k, sw) {
            Ok((vs, n)) => vs.len() == k && n <= b.len(),
            Err((_, n)) => n <= b.len(),
        },
    decreases k,
{
    if k > 0 {
        lemma_elems_from_bytes_len::<B>(b, (k - 1) as nat, sw);
        if let Ok((vs, n)) = spec_elems_from_bytes::<B>(b, (k - 1) as nat, sw) {
            B::lemma_from_bytes_len(b.skip(n as int), sw);
        }
    }
}

/// Bytes after what `k` successfully decoded elements take up change nothing.
pub proof fn lemma_elems_prefix_tolerance<B: Serialize>(b: Seq<u8>, rest: Seq<u8>, k: nat, sw: nat)
    requires
        spec_elems_from_bytes::<B>(b, k, sw) is Ok,
    ensures
        spec_elems_from_bytes::<B>(b + rest, k, sw) == spec_elems_from_bytes::<B>(b, k, sw),
    decreases k,
{
    if k > 0 {
        lemma_elems_prefix_tolerance::<B>(b, rest, (k - 1) as nat, sw);
        lemma_elems_from_bytes_len::<B>(b, (k - 1) as nat, sw);
        let n = (spec_elems_from_bytes::<B>(b, (k - 1) as nat, sw)->Ok_0).1;
        assert((b + rest).skip(n as int) =~= b.skip(n as int) + rest);
        B::lemma_prefix_tolerance(b.skip(n as int), rest, sw);
    }
}

/// Once an element fails to decode, decoding more elements fails the same way.
pub proof fn lemma_elems_from_bytes_err<B: Serialize>(b: Seq<u8>, i: nat, k: nat, sw: nat)
    requires
        i <= k,
        spec_elems_from_bytes::<B>(b, i, sw) is Err,
    ensures
        spec_elems_from_bytes::<B>(b, k, sw) == spec_elems_from_bytes::<B>(b, i, sw),
    decreases k,
{
    if i < k {
        lemma_elems_from_bytes_err::<B>(b, i, (k - 1) as nat, sw);
    }
}

/// Once an element fails to encode, encoding the whole sequence fails the same way.
pub proof fn lemma_elems_into_bytes_err<B: Serialize>(s: Seq<<B as DeepView>::V>, i: nat, sw: nat)
    requires
        i <= s.len(),
        spec_elems_into_bytes::<B>(s.take(i as int), sw) is Err,
    ensures
        spec_elems_into_bytes::<B>(s, sw) == spec_elems_into_bytes::<B>(s.take(i as int), sw),
    decreases s.len(),
{
    if i == s.len() {
        assert(s.take(i as int) =~= s);
    } else {
        assert(s.drop_last().take(i as int) =~= s.take(i as int));
        lemma_elems_into_bytes_err::<B>(s.drop_last(), i, sw);
    }
}

/// Decoding the encodings of the elements of `s`, followed by any bytes at all, gives the
/// elements back and takes up exactly their encodings.
pub proof fn lemma_elems_round_trip<B: Serialize>(s: Seq<<B as DeepView>::V>, sw: nat, rest: Seq<u8>)
    requires
        forall|i: int| 0 <= i < s.len() ==> is_view::<B>(#[trigger] s[i]),
        spec_elems_into_bytes::<B>(s, sw) is Ok,
    ensures
        ({
            let e = spec_elems_into_bytes::<B>(s, sw)->Ok_0;
            spec_elems_from_bytes::<B>(e + rest, s.len(), sw) == Decoded::Ok((s, e.len()))
        }),
    decreases s.len(),
{
    if s.len() == 0 {
        assert(s =~= seq![]);
    } else {
        let f = spec_elems_into_bytes::<B>(s.drop_last(), sw)->Ok_0;
        let g = B::spec_into_bytes(s.last(), sw)->Ok_0;
        assert forall|i: int| 0 <= i < s.drop_last().len() implies is_view::<B>(
            #[trigger] s.drop_last()[i],
        ) by {
            assert(s.drop_last()[i] == s[i]);
        }
        assert(is_view::<B>(s[s.len() - 1]));
        lemma_elems_round_trip::<B>(s.drop_last(), sw, g + rest);
        assert((f + g) + rest =~= f + (g + rest));
        assert(((f + g) + rest).skip(f.len() as int) =~= g + rest);
        B::lemma_round_trip(s.last(), sw, rest);
        assert(s.drop_last().push(s.last()) =~= s);
    }
}

/// Bytes encode as themselves, one each.
pub proof fn lemma_byte_elems(s: Seq<u8>, sw: nat)
    ensures
        spec_elems_into_bytes::<u8>(s, sw) == Encoded::Ok(s),
    decreases s.len(),
{
    if s.len() == 0 {
        assert(s =~= seq![]);
    } else {
        lemma_byte_elems(s.drop_last(), sw);
        let t = seq![s.last()];
        lemma_le_bytes_of_value(t);
        assert(t.drop_first() =~= seq![]);
        assert(le_value(t) == s.last() as nat);
        assert(s.drop_last() + seq![s.last()] =~= s);
    }
}

/// Decodes `k` elements one after another from the front of the cursor `b`.
pub fn read_elems<B: Serialize, S: Size>(b: &mut &[u8], k: usize) -> (r: Result<Vec<B>, Error>)
    ensures
        match spec_elems_from_bytes::<B>(old(b)@, k as nat, S::width()) {
            Ok((vs, n)) => r matches Ok(v) && v.deep_view() == vs && n <= old(b)@.len()
                && final(b)@ == old(b)@.skip(n as int),
            Err((e, n)) => r == Err::<Vec<B>, Error>(e) && n <= old(b)@.len()
                && final(b)@ == old(b)@.skip(n as int),
        },
{
    let ghost start = b@;
    let mut v: Vec<B> = Vec::new();
    let mut i: usize = 0;
    assert(v.deep_view() =~= seq![]);
    assert(b@ =~= start.skip(0));
    while i < k
        invariant
            i <= k,
            start == old(b)@,
            b@.len() <= start.len(),
            b@ == start.skip(start.len() - b@.len()),
            spec_elems_from_bytes::<B>(start, i as nat, S::width()) == Decoded::Ok(
                (v.deep_view(), (start.len() - b@.len()) as nat),
            ),
        decreases k - i,
    {
        let ghost before = b@;
        match B::from_bytes::<S>(b) {
            Ok(next) => {
                let ghost prev = v.deep_view();
                v.push(next);
                i = i + 1;
                assert(v.deep_view() =~= prev.push(next.deep_view()));
            },
            Err(e) => {
                proof {
                    lemma_elems_from_bytes_err::<B>(start, (i + 1) as nat, k as nat, S::width());
                }
                return Err(e);
            },
        }
    }
    Ok(v)
}

/// Appends the encodings of the elements of `s`, one after another.
pub fn write_elems<B: Serialize, S: Size>(s: &[B], b: &mut Vec<u8>) -> (r: Result<(), Error>)
    ensures
        match spec_elems_into_bytes::<B>(s.deep_view(), S::width()) {
            Ok(e) => r == Ok::<(), Error>(()) && final(b)@ == old(b)@ + e,
            Err((e, w)) => r == Err::<(), Error>(e) && final(b)@ == old(b)@ + w,
        },
{
    let ghost view = s.deep_view();
    let mut i: usize = 0;
    assert(view.take(0) =~= seq![]);
    assert(b@ =~= old(b)@ + seq![]);
    while i < s.len()
        invariant
            i <= s@.len(),
            view == s.deep_view(),
            spec_elems_into_bytes::<B>(view.take(i as int), S::width()) matches Ok(e)
                && b@ == old(b)@ + e,
        decreases s@.len() - i,
    {
        let ghost before = b@;
        proof {
            assert(view.take(i + 1).drop_last() =~= view.take(i as int));
        }
        match s[i].into_bytes::<S>(b) {
            Ok(()) => {
                proof {
                    let e = spec_elems_into_bytes::<B>(view.take(i as int), S::width())->Ok_0;
                    let g = B::spec_into_bytes(view[i as int], S::width())->Ok_0;
                    assert(b@ =~= old(b)@ + (e + g));
                }
            },
            Err(e) => {
                proof {
                    lemma_elems_into_bytes_err::<B>(view, (i + 1) as nat, S::width());
                }
                return Err(e);
            },
        }
        i = i + 1;
    }
    proof {
        assert(view.take(i as int) =~= view);
    }
    Ok(())
}

impl<B: Serialize> Serialize for Vec<B> {
    /// The number of elements as a length prefix, then each element in order.
    /// A length that the prefix cannot hold writes nothing.
    open spec fn spec_into_bytes(v: Seq<<B as DeepView>::V>, sw: nat) -> Encoded {
        match spec_len_bytes(v.len(), sw) {
            Ok(p) => match spec_elems_into_bytes::<B>(v, sw) {
                Ok(e) => Ok(p + e),
                Err((x, w)) => Err((x, p + w)),
            },
            Err(x) => Err((x, seq![])),
        }
    }

    open spec fn spec_from_bytes(b: Seq<u8>, sw: nat) -> Decoded<Seq<<B as DeepView>::V>> {
        match spec_read_len(b, sw) {
            Ok(k) => match spec_elems_from_bytes::<B>(b.skip(sw as int), k, sw) {
                Ok((vs, n)) => Ok((vs, sw + n)),
                Err((e, n)) => Err((e, sw + n)),
            },
            Err(x) => Err(x),
        }
    }

    proof fn lemma_from_bytes_len(b: Seq<u8>, sw: nat) {
        if let Ok(k) = spec_read_len(b, sw) {
            lemma_elems_from_bytes_len::<B>(b.skip(sw as int), k, sw);
        }
    }

    proof fn lemma_prefix_tolerance(b: Seq<u8>, rest: Seq<u8>, sw: nat) {
        lemma_read_fixed_prefix(b, rest, sw);
        let k = spec_read_len(b, sw)->Ok_0;
        assert((b + rest).skip(sw as int) =~= b.skip(sw as int) + rest);
        lemma_elems_prefix_tolerance::<B>(b.skip(sw as int), rest, k, sw);
    }

    proof fn lemma_round_trip(v: Seq<<B as DeepView>::V>, sw: nat, rest: Seq<u8>) {
        let x = choose|x: Vec<B>| #[trigger] view_of::<Vec<B>>(x) == v;
        assert forall|i: int| 0 <= i < v.len() implies is_view::<B>(#[trigger] v[i]) by {
            assert(view_of::<B>(x@[i]) == v[i]);
        }
        lemma_seq_round_trip::<B>(v, sw, rest);
    }

    fn from_bytes<S: Size>(b: &mut &[u8]) -> (r: Result<Vec<B>, Error>) {
        let len = read_len::<S>(b)?;
        read_elems::<B, S>(b, len)
    }

    fn into_bytes<S: Size>(&self, b: &mut Vec<u8>) -> (r: Result<(), Error>) {
        push_len::<S>(self.len(), b)?;
        let s = self.as_slice();
        assert(s.deep_view() =~= self.deep_view());
        write_elems::<B, S>(s, b)
    }
}

/// Decoding the encoding of a sequence of element views, followed by any bytes at all, gives
/// the sequence back and takes up exactly the encoding.
pub proof fn lemma_seq_round_trip<B: Serialize>(v: Seq<<B as DeepView>::V>, sw: nat, rest: Seq<u8>)
    requires
        forall|i: int| 0 <= i < v.len() ==> is_view::<B>(#[trigger] v[i]),
        <Vec<B> as Serialize>::spec_into_bytes(v, sw) is Ok,
    ensures
        ({
            let e = <Vec<B> as Serialize>::spec_into_bytes(v, sw)->Ok_0;
            <Vec<B> as Serialize>::spec_from_bytes(e + rest, sw) == Decoded::Ok((v, e.len()))
        }),
{
    let p = le_bytes(v.len(), sw);
    let e = spec_elems_into_bytes::<B>(v, sw)->Ok_0;
    lemma_read_fixed_round_trip(v.len(), sw, e + rest);
    assert((p + e) + rest =~= p + (e + rest));
    assert((p + (e + rest)).skip(sw as int) =~= e + rest);
    lemma_elems_round_trip::<B>(v, sw, rest);
}

/// Relies on `Vec::into_boxed_slice`: the boxed slice holds the vector's elements in order.
#[verifier::external_body]
fn boxed_slice_from_vec<T>(v: Vec<T>) -> (r: Box<[T]>)
    ensures
        r@ == v@,
{
    v.into_boxed_slice()
}

impl<B: Serialize> Serialize for Box<[B]> {
    /// Encoded as the sequence of its elements: a length prefix, then each element in order.
    open spec fn spec_into_bytes(v: Seq<<B as DeepView>::V>, sw: nat) -> Encoded {
        <Vec<B> as Serialize>::spec_into_bytes(v, sw)
    }

    open spec fn spec_from_bytes(b: Seq<u8>, sw: nat) -> Decoded<Seq<<B as DeepView>::V>> {
        <Vec<B> as Serialize>::spec_from_bytes(b, sw)
    }

    proof fn lemma_from_bytes_len(b: Seq<u8>, sw: nat) {
        <Vec<B> as Serialize>::lemma_from_bytes_len(b, sw);
    }

    proof fn lemma_prefix_tolerance(b: Seq<u8>, rest: Seq<u8>, sw: nat) {
        <Vec<B> as Serialize>::lemma_prefix_tolerance(b, rest, sw);
    }

    proof fn lemma_round_trip(v: Seq<<B as DeepView>::V>, sw: nat, rest: Seq<u8>) {
        let x = choose|x: Box<[B]>| #[trigger] view_of::<Box<[B]>>(x) == v;
        assert forall|i: int| 0 <= i < v.len() implies is_view::<B>(#[trigger] v[i]) by {
            assert(view_of::<B>(x@[i]) == v[i]);
        }
        lemma_seq_round_trip::<B>(v, sw, rest);
    }

    fn from_bytes<S: Size>(b: &mut &[u8]) -> (r: Result<Box<[B]>, Error>) {
        let v = <Vec<B>>::from_bytes::<S>(b)?;
        let boxed = boxed_slice_from_vec(v);
        assert(boxed.deep_view() =~= v.deep_view());
        Ok(boxed)
    }

    fn into_bytes<S: Size>(&self, b: &mut Vec<u8>) -> (r: Result<(), Error>) {
        let s: &[B] = &**self;
        assert(s.deep_view() =~= self.deep_view());
        push_len::<S>(s.len(), b)?;
        write_elems::<B, S>(s, b)
    }
}

/// Relies on `String::from_utf8`: it succeeds exactly on valid UTF-8, with the characters that
/// the bytes encode.
#[verifier::external_body]
fn string_from_utf8(bytes: Vec<u8>) -> (r: Option<String>)
    ensures
        match r {
            Some(s) => valid_utf8(bytes@) && s@ == decode_utf8(bytes@),
            None => !valid_utf8(bytes@),
        },
{
    String::from_utf8(bytes).ok()
}

/// The encoding of text whose characters are `s`: the number of its UTF-8 bytes as a length
/// prefix, then those bytes.
pub open spec fn spec_str_into_bytes(s: Seq<char>, sw: nat) -> Encoded {
    match spec_len_bytes(encode_utf8(s).len(), sw) {
        Ok(p) => Ok(p + encode_utf8(s)),
        Err(x) => Err((x, seq![])),
    }
}

/// Appends the encoding of the text `s`: its length in bytes as a prefix written with the size
/// type `S`, then its UTF-8 bytes. Fails, writing nothing, when `S` cannot hold the length.
///
/// Text is decoded into an owned [`String`] only: a decoded `&str` could not outlive the bytes.
pub fn str_into_bytes<S: Size>(s: &str, b: &mut Vec<u8>) -> (r: Result<(), Error>)
    ensures
        match spec_str_into_bytes(s@, S::width()) {
            Ok(e) => r == Ok::<(), Error>(()) && final(b)@ == old(b)@ + e,
            Err((e, w)) => r == Err::<(), Error>(e) && final(b)@ == old(b)@ + w,
        },
{
    let bytes = s.as_bytes();
    push_len::<S>(bytes.len(), b)?;
    let ghost mid = b@;
    b.extend_from_slice(bytes);
    assert(b@ =~= mid + encode_utf8(s@));
    Ok(())
}

impl Serialize for String {
    /// The number of UTF-8 bytes as a length prefix, then the bytes; decoding reads them as a
    /// byte sequence and fails on invalid UTF-8.
    open spec fn spec_into_bytes(v: Seq<char>, sw: nat) -> Encoded {
        spec_str_into_bytes(v, sw)
    }

    open spec fn spec_from_bytes(b: Seq<u8>, sw: nat) -> Decoded<Seq<char>> {
        match <Vec<u8> as Serialize>::spec_from_bytes(b, sw) {
            Ok((bytes, n)) => if valid_utf8(bytes) {
                Ok((decode_utf8(bytes), n))
            } else {
                Err((Error::InvalidUtf8, n))
            },
            Err(x) => Err(x),
        }
    }

    proof fn lemma_from_bytes_len(b: Seq<u8>, sw: nat) {
        <Vec<u8> as Serialize>::lemma_from_bytes_len(b, sw);
    }

    proof fn lemma_prefix_tolerance(b: Seq<u8>, rest: Seq<u8>, sw: nat) {
        <Vec<u8> as Serialize>::lemma_prefix_tolerance(b, rest, sw);
    }

    proof fn lemma_round_trip(v: Seq<char>, sw: nat, rest: Seq<u8>) {
        let bytes = encode_utf8(v);
        lemma_byte_elems(bytes, sw);
        assert forall|i: int| 0 <= i < bytes.len() implies is_view::<u8>(#[trigger] bytes[i]) by {
            assert(view_of::<u8>(bytes[i]) == bytes[i]);
        }
        lemma_seq_round_trip::<u8>(bytes, sw, rest);
        encode_utf8_valid_utf8(v);
        encode_utf8_decode_utf8(v);
    }

    fn from_bytes<S: Size>(b: &mut &[u8]) -> (r: Result<String, Error>) {
        let bytes = <Vec<u8>>::from_bytes::<S>(b)?;
        proof {
            assert(bytes.deep_view() =~= bytes@);
        }
        match string_from_utf8(bytes) {
            Some(s) => Ok(s),
            None => Err(Error::InvalidUtf8),
        }
    }

    fn into_bytes<S: Size>(&self, b: &mut Vec<u8>) -> (r: Result<(), Error>) {
        str_into_bytes::<S>(self.as_str(), b)
    }
}

} // verus!
