//! Fixed-width unsigned numbers as little-endian bytes.
use vstd::prelude::*;
use vstd::arithmetic::div_mod::{lemma_breakdown, lemma_div_denominator};

use crate::error::Error;

verus! {

/// `256` to the power `w`: one more than the largest number that `w` bytes hold.
pub open spec fn pow256(w: nat) -> nat
    decreases w,
{
    if w == 0 {
        1
    } else {
        256 * pow256((w - 1) as nat)
    }
}

/// The `w` low-order bytes of `n`, least significant first.
pub open spec fn le_bytes(n: nat, w: nat) -> Seq<u8> {
    Seq::new(w, |i: int| ((n / pow256(i as nat)) % 256) as u8)
}

/// The number that the bytes `b` spell, least significant first.
pub open spec fn le_value(b: Seq<u8>) -> nat
    decreases b.len(),
{
    if b.len() == 0 {
        0
    } else {
        b[0] as nat + 256 * le_value(b.drop_first())
    }
}

/// Reading `w` bytes from the front of `b`: the number they spell, or how many are missing.
pub open spec fn spec_read_fixed(b: Seq<u8>, w: nat) -> Result<nat, Error> {
    if b.len() < w {
        Err(Error::ExpectedBytes((w - b.len()) as u32))
    } else {
        Ok(le_value(b.take(w as int)))
    }
}

pub proof fn lemma_pow256_pos(w: nat)
    ensures
        pow256(w) > 0,
    decreases w,
{
    if w > 0 {
        lemma_pow256_pos((w - 1) as nat);
    }
}

pub proof fn lemma_pow256_mono(a: nat, b: nat)
    requires
        a <= b,
    ensures
        pow256(a) <= pow256(b),
    decreases b,
{
    if a < b {
        lemma_pow256_mono(a, (b - 1) as nat);
        lemma_pow256_pos((b - 1) as nat);
    }
}

pub proof fn lemma_pow256_16()
    ensures
        pow256(16) == 0x1_0000_0000_0000_0000_0000_0000_0000_0000,
        pow256(8) == 0x1_0000_0000_0000_0000,
        pow256(4) == 0x1_0000_0000,
        pow256(2) == 0x1_0000,
        pow256(1) == 0x100,
{
    reveal_with_fuel(pow256, 17);
}

/// The bytes of `n`, shifted by one: dropping the lowest byte of `n`'s encoding leaves the
/// encoding of `n / 256`.
proof fn lemma_le_bytes_drop_first(n: nat, w: nat)
    requires
        w > 0,
    ensures
        le_bytes(n, w).drop_first() == le_bytes(n / 256, (w - 1) as nat),
        le_bytes(n, w)[0] == n % 256,
{
    let s = le_bytes(n, w);
    assert(pow256(0) == 1);
    assert(n / 1 == n);
    assert(s[0] == n % 256);
    assert forall|i: int| 0 <= i < w - 1 implies #[trigger] s.drop_first()[i] == le_bytes(
        n / 256,
        (w - 1) as nat,
    )[i] by {
        lemma_pow256_pos(i as nat);
        lemma_div_denominator(n as int, 256, pow256(i as nat) as int);
        assert(pow256((i + 1) as nat) == 256 * pow256(i as nat));
    }
    assert(s.drop_first() =~= le_bytes(n / 256, (w - 1) as nat));
}

/// Reading back the `w` low-order bytes of `n` gives `n` modulo `256^w`.
pub proof fn lemma_le_value_of_bytes(n: nat, w: nat)
    ensures
        le_value(le_bytes(n, w)) == n % pow256(w),
    decreases w,
{
    if w == 0 {
        assert(n % 1 == 0);
    } else {
        let s = le_bytes(n, w);
        lemma_le_bytes_drop_first(n, w);
        lemma_le_value_of_bytes(n / 256, (w - 1) as nat);
        lemma_pow256_pos((w - 1) as nat);
        lemma_breakdown(n as int, 256, pow256((w - 1) as nat) as int);
    }
}

/// A number that fits in `w` bytes survives being written and read back.
pub proof fn lemma_le_round_trip(n: nat, w: nat)
    requires
        n < pow256(w),
    ensures
        le_bytes(n, w).len() == w,
        le_value(le_bytes(n, w)) == n,
{
    lemma_le_value_of_bytes(n, w);
    vstd::arithmetic::div_mod::lemma_small_mod(n, pow256(w));
}

/// A number that fits in `w` bytes is read back from its bytes, whatever follows them.
pub proof fn lemma_read_fixed_round_trip(n: nat, w: nat, rest: Seq<u8>)
    requires
        n < pow256(w),
    ensures
        le_bytes(n, w).len() == w,
        spec_read_fixed(le_bytes(n, w) + rest, w) == Ok::<nat, Error>(n),
{
    lemma_le_round_trip(n, w);
    assert((le_bytes(n, w) + rest).take(w as int) =~= le_bytes(n, w));
}

/// Bytes after the `w` that are read change nothing.
pub proof fn lemma_read_fixed_prefix(b: Seq<u8>, rest: Seq<u8>, w: nat)
    requires
        b.len() >= w,
    ensures
        spec_read_fixed(b + rest, w) == spec_read_fixed(b, w),
{
    assert((b + rest).take(w as int) =~= b.take(w as int));
}

/// The number that `b` spells fits in `b.len()` bytes, and writing it gives `b` back.
pub proof fn lemma_le_bytes_of_value(b: Seq<u8>)
    ensures
        le_value(b) < pow256(b.len()),
        le_bytes(le_value(b), b.len()) == b,
    decreases b.len(),
{
    if b.len() > 0 {
        let t = b.drop_first();
        lemma_le_bytes_of_value(t);
        let v = le_value(b);
        lemma_pow256_pos(t.len());
        assert(v < pow256(b.len())) by (nonlinear_arith)
            requires
                v == b[0] as nat + 256 * le_value(t),
                b[0] < 256,
                le_value(t) < pow256(t.len()),
                pow256(b.len()) == 256 * pow256(t.len()),
        ;
        lemma_le_bytes_drop_first(v, b.len());
        assert(v / 256 == le_value(t) && v % 256 == b[0]) by (nonlinear_arith)
            requires
                v == b[0] as nat + 256 * le_value(t),
                b[0] < 256,
        ;
        let s = le_bytes(v, b.len());
        assert(s =~= b) by {
            assert forall|i: int| 0 <= i < b.len() implies s[i] == b[i] by {
                if i > 0 {
                    assert(s[i] == s.drop_first()[i - 1]);
                    assert(b[i] == t[i - 1]);
                }
            }
        }
    }
}

/// Appends the `w` low-order bytes of `v`, least significant first.
pub fn write_le(v: u128, w: usize, b: &mut Vec<u8>)
    ensures
        final(b)@ == old(b)@ + le_bytes(v as nat, w as nat),
{
    let mut x: u128 = v;
    let mut i: usize = 0;
    assert(pow256(0) == 1);
    assert(v as nat / 1 == v);
    assert(b@ =~= old(b)@ + le_bytes(v as nat, 0));
    while i < w
        invariant
            i <= w,
            x == v as nat / pow256(i as nat),
            b@ == old(b)@ + le_bytes(v as nat, i as nat),
        decreases w - i,
    {
        proof {
            lemma_pow256_pos(i as nat);
            lemma_div_denominator(v as int, pow256(i as nat) as int, 256);
            assert(pow256((i + 1) as nat) == 256 * pow256(i as nat));
        }
        b.push((x % 256) as u8);
        x = x / 256;
        i = i + 1;
        assert(b@ =~= old(b)@ + le_bytes(v as nat, i as nat));
    }
}

/// Reads `w` bytes from the front of the cursor as a little-endian number and advances past
/// them; fails, leaving the cursor where it was, when fewer than `w` bytes remain.
pub fn read_le(w: usize, b: &mut &[u8]) -> (r: Result<u128, Error>)
    requires
        w <= 16,
    ensures
        match spec_read_fixed(old(b)@, w as nat) {
            Ok(n) => r == Ok::<u128, Error>(n as u128) && n < pow256(w as nat)
                && final(b)@ == old(b)@.skip(w as int),
            Err(e) => r == Err::<u128, Error>(e) && final(b)@ == old(b)@,
        },
{
    let len = b.len();
    if len < w {
        return Err(Error::ExpectedBytes((w - len) as u32));
    }
    let (head, rest) = b.split_at(w);
    let mut acc: u128 = 0;
    let mut i: usize = w;
    proof {
        lemma_pow256_16();
    }
    while i > 0
        invariant
            i <= w <= 16,
            head@.len() == w,
            pow256(16) == 0x1_0000_0000_0000_0000_0000_0000_0000_0000,
            acc as nat == le_value(head@.subrange(i as int, w as int)),
        decreases i,
    {
        i = i - 1;
        let ghost t = head@.subrange(i as int, w as int);
        proof {
            assert(t.drop_first() =~= head@.subrange(i + 1, w as int));
            lemma_le_bytes_of_value(t);
            lemma_pow256_mono(t.len(), 16);
            assert(acc * 256 + head@[i as int] < pow256(t.len())) by (nonlinear_arith)
                requires
                    le_value(t) == t[0] as nat + 256 * acc,
                    t[0] == head@[i as int],
                    le_value(t) < pow256(t.len()),
            ;
        }
        acc = acc * 256 + head[i] as u128;
    }
    *b = rest;
    proof {
        assert(head@.subrange(0, w as int) =~= old(b)@.take(w as int));
        lemma_le_bytes_of_value(head@);
    }
    Ok(acc)
}

} // verus!
