//! The text form of instructions, for traces and debugging.
//!
//! An instruction is written as its variant's name and a space, then each field in decimal
//! followed by a comma, and after the last field one more space: `Add 1,2,3, `, `Jump 64, `,
//! `Halt `. Reading it back takes an exact variant name, tried in declaration order, and the
//! fields in the same form; there is no escaping and no other whitespace.
use vstd::prelude::*;
use vstd::string::{StrSliceExecFns, StringExecFns};

use crate::instruction::Instruction;

verus! {

/// The decimal digits of `n`, most significant first.
pub open spec fn spec_decimal(n: nat) -> Seq<char>
    decreases n,
{
    if n < 10 {
        seq![(n + 48) as char]
    } else {
        spec_decimal(n / 10).push(((n % 10) + 48) as char)
    }
}

/// The text of the decimal digit `d`.
fn digit_str(d: u64) -> (r: &'static str)
    requires
        d < 10,
    ensures
        r@ == seq![(d + 48) as char],
{
    proof {
        reveal_strlit("0");
        reveal_strlit("1");
        reveal_strlit("2");
        reveal_strlit("3");
        reveal_strlit("4");
        reveal_strlit("5");
        reveal_strlit("6");
        reveal_strlit("7");
        reveal_strlit("8");
        reveal_strlit("9");
    }
    let r = if d == 0 {
        "0"
    } else if d == 1 {
        "1"
    } else if d == 2 {
        "2"
    } else if d == 3 {
        "3"
    } else if d == 4 {
        "4"
    } else if d == 5 {
        "5"
    } else if d == 6 {
        "6"
    } else if d == 7 {
        "7"
    } else if d == 8 {
        "8"
    } else {
        "9"
    };
    assert(r@ =~= seq![(d + 48) as char]);
    r
}

/// Appends the decimal digits of `n`, most significant first.
fn push_decimal(s: &mut String, n: u64)
    ensures
        final(s)@ == old(s)@ + spec_decimal(n as nat),
    decreases n,
{
    if n < 10 {
        s.append(digit_str(n));
        assert(s@ =~= old(s)@ + spec_decimal(n as nat));
    } else {
        push_decimal(s, n / 10);
        s.append(digit_str(n % 10));
        assert(s@ =~= old(s)@ + spec_decimal(n as nat));
    }
}

/// A field of the text form: its decimal digits and a comma.
pub open spec fn spec_text_field(n: nat) -> Seq<char> {
    spec_decimal(n) + seq![',']
}

/// Appends a field of the text form.
fn push_text_field(s: &mut String, n: u64)
    ensures
        final(s)@ == old(s)@ + spec_text_field(n as nat),
{
    push_decimal(s, n);
    s.append(",");
    proof {
        reveal_strlit(",");
    }
    assert(s@ =~= old(s)@ + spec_text_field(n as nat));
}

impl Instruction {
    /// The text form of an instruction, for traces and debugging: the variant's name and a
    /// space, then each field followed by a comma, and after the last field one more space.
    pub open spec fn spec_text(self) -> Seq<char> {
        match self {
            Instruction::Add { a, b, addr } => seq!['A', 'd', 'd', ' '] + spec_text_field(a as nat)
                + spec_text_field(b as nat) + spec_text_field(addr as nat) + seq![' '],
            Instruction::Jump(target) => seq!['J', 'u', 'm', 'p', ' '] + spec_text_field(
                target as nat,
            ) + seq![' '],
            Instruction::Halt => seq!['H', 'a', 'l', 't', ' '],
        }
    }

    /// Appends the text form of the instruction to `s`.
    pub fn into_string(&self, s: &mut String)
        ensures
            final(s)@ == old(s)@ + self.spec_text(),
    {
        proof {
            reveal_strlit("Add ");
            reveal_strlit("Jump ");
            reveal_strlit("Halt ");
            reveal_strlit(" ");
        }
        match self {
            Instruction::Add { a, b, addr } => {
                s.append("Add ");
                push_text_field(s, *a as u64);
                push_text_field(s, *b as u64);
                push_text_field(s, *addr as u64);
                s.append(" ");
            },
            Instruction::Jump(target) => {
                s.append("Jump ");
                push_text_field(s, *target as u64);
                s.append(" ");
            },
            Instruction::Halt => {
                s.append("Halt ");
            },
        }
        assert(s@ =~= old(s)@ + self.spec_text());
    }
}


/// A decimal digit.
pub open spec fn is_digit(c: char) -> bool {
    48 <= c as u32 <= 57
}

/// The value of the digit `c`.
pub open spec fn digit_value(c: char) -> nat {
    (c as u32 - 48) as nat
}

/// The number of decimal digits at the front of `s`.
pub open spec fn digit_run(s: Seq<char>) -> nat
    decreases s.len(),
{
    if s.len() > 0 && is_digit(s[0]) {
        1 + digit_run(s.drop_first())
    } else {
        0
    }
}

/// The number that the decimal digits `s` spell.
pub open spec fn digits_value(s: Seq<char>) -> nat
    decreases s.len(),
{
    if s.len() == 0 {
        0
    } else {
        10 * digits_value(s.drop_last()) + digit_value(s.last())
    }
}

/// Reading a field no greater than `max` from the front of `s`: at least one decimal digit,
/// then a comma. The number and the count of characters taken.
pub open spec fn spec_parse_field(s: Seq<char>, max: nat) -> Option<(nat, nat)> {
    let k = digit_run(s);
    if 1 <= k < s.len() && s[k as int] == ',' && digits_value(s.take(k as int)) <= max {
        Some((digits_value(s.take(k as int)), k + 1))
    } else {
        None
    }
}

/// `s` starts with `p`.
pub open spec fn has_prefix(s: Seq<char>, p: Seq<char>) -> bool {
    p.len() <= s.len() && s.take(p.len() as int) == p
}

/// `s` has a space at `i`.
pub open spec fn space_at(s: Seq<char>, i: nat) -> bool {
    i < s.len() && s[i as int] == ' '
}

/// The digits of a number are digits, at least one, and spell the number.
pub proof fn lemma_decimal(n: nat)
    ensures
        spec_decimal(n).len() >= 1,
        forall|i: int| 0 <= i < spec_decimal(n).len() ==> is_digit(#[trigger] spec_decimal(n)[i]),
        digits_value(spec_decimal(n)) == n,
    decreases n,
{
    if n >= 10 {
        lemma_decimal(n / 10);
        let d = spec_decimal(n);
        assert(d.drop_last() =~= spec_decimal(n / 10));
        assert((((n % 10) + 48) as char) as u32 == (n % 10) + 48);
        assert(d.last() == ((n % 10) + 48) as char);
        assert(digit_value(d.last()) == n % 10);
        assert(n == 10 * (n / 10) + n % 10);
        assert(digits_value(d) == 10 * digits_value(d.drop_last()) + digit_value(d.last()));
    } else {
        let d = spec_decimal(n);
        assert(d.drop_last() =~= seq![]);
        assert(((n + 48) as char) as u32 == n + 48);
        assert(digits_value(d.drop_last()) == 0);
        assert(d.last() == (n + 48) as char);
        assert(digits_value(d) == 10 * digits_value(d.drop_last()) + digit_value(d.last()));
    }
}

/// The digit run at the front of `t` is `k` long when `k` digits are followed by a non-digit
/// or by the end.
pub proof fn lemma_digit_run(t: Seq<char>, k: nat)
    requires
        k <= t.len(),
        forall|j: int| 0 <= j < k ==> is_digit(#[trigger] t[j]),
        k == t.len() || !is_digit(t[k as int]),
    ensures
        digit_run(t) == k,
    decreases k,
{
    if k > 0 {
        lemma_digit_run(t.drop_first(), (k - 1) as nat);
    }
}

/// A longer run of digits spells no smaller number.
pub proof fn lemma_digits_value_mono(t: Seq<char>, a: nat, b: nat)
    requires
        a <= b <= t.len(),
    ensures
        digits_value(t.take(a as int)) <= digits_value(t.take(b as int)),
    decreases b,
{
    if a < b {
        lemma_digits_value_mono(t, a, (b - 1) as nat);
        assert(t.take(b as int).drop_last() =~= t.take(b - 1));
    }
}

/// A field reads back as its number, whatever follows it.
pub proof fn lemma_field_round_trip(n: nat, max: nat, rest: Seq<char>)
    requires
        n <= max,
    ensures
        spec_parse_field(spec_text_field(n) + rest, max) == Some((n, spec_text_field(n).len())),
{
    let d = spec_decimal(n);
    let s = spec_text_field(n) + rest;
    lemma_decimal(n);
    assert(s[d.len() as int] == ',');
    lemma_digit_run(s, d.len());
    assert(s.take(d.len() as int) =~= d);
}

/// Reads a field no greater than `max` from `s` at the character position `pos`; returns the
/// number and the position after the comma.
fn parse_field(s: &str, pos: usize, max: u32) -> (r: Option<(u32, usize)>)
    requires
        pos <= s@.len(),
    ensures
        match spec_parse_field(s@.skip(pos as int), max as nat) {
            Some((v, n)) => r == Some((v as u32, (pos + n) as usize)),
            None => r is None,
        },
{
    let ghost t = s@.skip(pos as int);
    let len = s.unicode_len();
    let mut i: usize = pos;
    let mut acc: u64 = 0;
    assert(t.take(0) =~= seq![]);
    loop
        invariant
            pos <= i <= len,
            len == s@.len(),
            t == s@.skip(pos as int),
            forall|j: int| 0 <= j < i - pos ==> is_digit(#[trigger] t[j]),
            acc == digits_value(t.take(i - pos)),
            acc <= max,
        ensures
            pos <= i <= len,
            forall|j: int| 0 <= j < i - pos ==> is_digit(#[trigger] t[j]),
            acc == digits_value(t.take(i - pos)),
            acc <= max,
            i == len || !is_digit(t[i - pos]),
        decreases len - i,
    {
        if i == len {
            break;
        }
        let c = s.get_char(i);
        let code = c as u32;
        if code < 48 || code > 57 {
            break;
        }
        assert(t.take(i - pos + 1).drop_last() =~= t.take(i - pos));
        acc = acc * 10 + (code - 48) as u64;
        i = i + 1;
        if acc > max as u64 {
            proof {
                let k = digit_run(t);
                assert forall|j: int| 0 <= j < i - pos implies is_digit(#[trigger] t[j]) by {}
                lemma_digit_run_at_least(t, (i - pos) as nat);
                lemma_digits_value_mono(t, (i - pos) as nat, k);
            }
            return None;
        }
    }
    proof {
        lemma_digit_run(t, (i - pos) as nat);
    }
    if i == pos || i == len {
        return None;
    }
    if s.get_char(i) != ',' {
        return None;
    }
    Some((acc as u32, i + 1))
}

/// A run of `k` digits at the front makes a digit run at least `k` long.
pub proof fn lemma_digit_run_at_least(t: Seq<char>, k: nat)
    requires
        k <= t.len(),
        forall|j: int| 0 <= j < k ==> is_digit(#[trigger] t[j]),
    ensures
        k <= digit_run(t) <= t.len(),
    decreases t.len(),
{
    if t.len() > 0 && is_digit(t[0]) {
        if k > 0 {
            assert forall|j: int| 0 <= j < k - 1 implies is_digit(#[trigger] t.drop_first()[j]) by {
                assert(t.drop_first()[j] == t[j + 1]);
            }
        }
        lemma_digit_run_at_least(t.drop_first(), if k > 0 { (k - 1) as nat } else { 0 });
    }
}

/// Whether `s` holds the characters of `p` at the character position `pos`.
fn has_prefix_at(s: &str, pos: usize, p: &str) -> (r: bool)
    requires
        pos <= s@.len(),
    ensures
        r == has_prefix(s@.skip(pos as int), p@),
{
    let len = s.unicode_len();
    let plen = p.unicode_len();
    if plen > len - pos {
        return false;
    }
    let mut i: usize = 0;
    while i < plen
        invariant
            i <= plen <= len - pos,
            len == s@.len(),
            plen == p@.len(),
            forall|j: int| 0 <= j < i ==> s@[pos + j] == p@[j],
        decreases plen - i,
    {
        if s.get_char(pos + i) != p.get_char(i) {
            assert(s@.skip(pos as int).take(plen as int)[i as int] != p@[i as int]);
            return false;
        }
        i = i + 1;
    }
    assert(s@.skip(pos as int).take(plen as int) =~= p@);
    true
}

/// Whether `s` has a space at the character position `pos`.
fn space_at_exec(s: &str, pos: usize) -> (r: bool)
    ensures
        r == space_at(s@, pos as nat),
{
    pos < s.unicode_len() && s.get_char(pos) == ' '
}

impl Instruction {
    /// Reading an instruction in text form from the front of `s`: the instruction and the count
    /// of characters taken. The variant names are tried in declaration order; the first that
    /// matches decides, and a field that does not parse or fit is a failure.
    pub open spec fn spec_parse(s: Seq<char>) -> Option<(Instruction, nat)> {
        if has_prefix(s, seq!['A', 'd', 'd', ' ']) {
            match spec_parse_field(s.skip(4), 0xff) {
                Some((a, n1)) => match spec_parse_field(s.skip((4 + n1) as int), 0xff) {
                    Some((b, n2)) => match spec_parse_field(s.skip((4 + n1 + n2) as int), 0xff) {
                        Some((addr, n3)) => if space_at(s, 4 + n1 + n2 + n3) {
                            Some(
                                (
                                    Instruction::Add { a: a as u8, b: b as u8, addr: addr as u8 },
                                    4 + n1 + n2 + n3 + 1,
                                ),
                            )
                        } else {
                            None
                        },
                        None => None,
                    },
                    None => None,
                },
                None => None,
            }
        } else if has_prefix(s, seq!['J', 'u', 'm', 'p', ' ']) {
            match spec_parse_field(s.skip(5), 0xffff_ffff) {
                Some((target, n1)) => if space_at(s, 5 + n1) {
                    Some((Instruction::Jump(target as u32), 5 + n1 + 1))
                } else {
                    None
                },
                None => None,
            }
        } else if has_prefix(s, seq!['H', 'a', 'l', 't', ' ']) {
            Some((Instruction::Halt, 5))
        } else {
            None
        }
    }

    /// Reads an instruction in text form from the front of the cursor `s` and advances the
    /// cursor past it; on failure the cursor stays where it was.
    pub fn from_string(s: &mut &str) -> (r: Option<Instruction>)
        ensures
            match Instruction::spec_parse(old(s)@) {
                Some((v, n)) => r == Some(v) && final(s)@ == old(s)@.skip(n as int),
                None => r is None && final(s)@ == old(s)@,
            },
    {
        proof {
            reveal_strlit("Add ");
            reveal_strlit("Jump ");
            reveal_strlit("Halt ");
            assert("Add "@ =~= seq!['A', 'd', 'd', ' ']);
            assert("Jump "@ =~= seq!['J', 'u', 'm', 'p', ' ']);
            assert("Halt "@ =~= seq!['H', 'a', 'l', 't', ' ']);
        }
        let t: &str = *s;
        let ghost v = t@;
        let len = t.unicode_len();
        assert(v.skip(0) =~= v);
        let parsed: Option<(Instruction, usize)> = if has_prefix_at(t, 0, "Add ") {
            assert(v.skip(0) =~= v);
            match parse_field(t, 4, 0xff) {
                Some((a, p1)) => match parse_field(t, p1, 0xff) {
                    Some((b, p2)) => match parse_field(t, p2, 0xff) {
                        Some((addr, p3)) => if space_at_exec(t, p3) {
                            Some((Instruction::Add { a: a as u8, b: b as u8, addr: addr as u8 }, p3 + 1))
                        } else {
                            None
                        },
                        None => None,
                    },
                    None => None,
                },
                None => None,
            }
        } else if has_prefix_at(t, 0, "Jump ") {
            assert(v.skip(0) =~= v);
            match parse_field(t, 5, 0xffff_ffff) {
                Some((target, p1)) => if space_at_exec(t, p1) {
                    Some((Instruction::Jump(target), p1 + 1))
                } else {
                    None
                },
                None => None,
            }
        } else if has_prefix_at(t, 0, "Halt ") {
            Some((Instruction::Halt, 5))
        } else {
            assert(v.skip(0) =~= v);
            None
        };
        match parsed {
            Some((instruction, end)) => {
                *s = t.substring_char(end, len);
                assert(s@ =~= v.skip(end as int));
                Some(instruction)
            },
            None => None,
        }
    }
}

/// Reading back the text form of an instruction, followed by anything at all, gives the
/// instruction and takes up exactly its text.
pub proof fn lemma_text_round_trip(v: Instruction, rest: Seq<char>)
    ensures
        Instruction::spec_parse(v.spec_text() + rest) == Some((v, v.spec_text().len())),
{
    let s = v.spec_text() + rest;
    match v {
        Instruction::Add { a, b, addr } => {
            let fa = spec_text_field(a as nat);
            let fb = spec_text_field(b as nat);
            let fc = spec_text_field(addr as nat);
            assert(s.take(4) =~= seq!['A', 'd', 'd', ' ']);
            assert(s.skip(4) =~= fa + (fb + fc + seq![' '] + rest));
            lemma_field_round_trip(a as nat, 0xff, fb + fc + seq![' '] + rest);
            assert(s.skip((4 + fa.len()) as int) =~= fb + (fc + seq![' '] + rest));
            lemma_field_round_trip(b as nat, 0xff, fc + seq![' '] + rest);
            assert(s.skip((4 + fa.len() + fb.len()) as int) =~= fc + (seq![' '] + rest));
            lemma_field_round_trip(addr as nat, 0xff, seq![' '] + rest);
            assert(s[(4 + fa.len() + fb.len() + fc.len()) as int] == ' ');
        },
        Instruction::Jump(target) => {
            let f = spec_text_field(target as nat);
            assert(s.take(4) !~= seq!['A', 'd', 'd', ' ']) by {
                assert(s.take(4)[0] == 'J');
            }
            assert(s.take(5) =~= seq!['J', 'u', 'm', 'p', ' ']);
            assert(s.skip(5) =~= f + (seq![' '] + rest));
            lemma_field_round_trip(target as nat, 0xffff_ffff, seq![' '] + rest);
            assert(s[(5 + f.len()) as int] == ' ');
        },
        Instruction::Halt => {
            assert(s.take(4) !~= seq!['A', 'd', 'd', ' ']) by {
                assert(s.take(4)[0] == 'H');
            }
            assert(s.take(5) !~= seq!['J', 'u', 'm', 'p', ' ']) by {
                assert(s.take(5)[0] == 'H');
            }
            assert(s.take(5) =~= seq!['H', 'a', 'l', 't', ' ']);
        },
    }
}

} // verus!
