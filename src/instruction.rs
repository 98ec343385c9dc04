//! A small instruction set, encoded as a tagged union.
use vstd::prelude::*;

use crate::error::Error;
use crate::serialize::{group_cursor, view_of, Decoded, Encoded, Serialize, Size};
use crate::tagged::{
    lemma_tag_round_trip, read_tag, spec_read_tag, spec_tag_bytes, spec_tag_width, write_tag,
};
use crate::little_endian::{lemma_pow256_16, lemma_read_fixed_prefix};

verus! {

broadcast use group_cursor;

/// The instructions of a minimal virtual machine: each variant's tag is its position.
#[derive(Debug, Clone, Copy, PartialEq, Eq, Structural)]
pub enum Instruction {
    /// Adds `a` and `b` and stores the sum at `addr`.
    Add { a: u8, b: u8, addr: u8 },
    /// Continues at the given address.
    Jump(u32),
    /// Stops the machine.
    Halt,
}

/// The number of variants of [`Instruction`].
pub const INSTRUCTION_VARIANTS: usize = 3;

impl DeepView for Instruction {
    type V = Instruction;

    open spec fn deep_view(&self) -> Instruction {
        *self
    }
}

impl Serialize for Instruction {
    /// The variant's tag, then its fields in declaration order.
    open spec fn spec_into_bytes(v: Instruction, sw: nat) -> Encoded {
        match v {
            Instruction::Add { a, b, addr } => match <(u8, u8, u8) as Serialize>::spec_into_bytes(
                (a, b, addr),
                sw,
            ) {
                Ok(e) => Ok(spec_tag_bytes(0, 3) + e),
                Err((x, w)) => Err((x, spec_tag_bytes(0, 3) + w)),
            },
            Instruction::Jump(target) => match <u32 as Serialize>::spec_into_bytes(target, sw) {
                Ok(e) => Ok(spec_tag_bytes(1, 3) + e),
                Err((x, w)) => Err((x, spec_tag_bytes(1, 3) + w)),
            },
            Instruction::Halt => Ok(spec_tag_bytes(2, 3)),
        }
    }

    open spec fn spec_from_bytes(b: Seq<u8>, sw: nat) -> Decoded<Instruction> {
        let w = spec_tag_width(3);
        match spec_read_tag(b, 3) {
            Ok(tag) => if tag == 0 {
                match <(u8, u8, u8) as Serialize>::spec_from_bytes(b.skip(w as int), sw) {
                    Ok(((a, x, addr), n)) => Ok((Instruction::Add { a, b: x, addr }, w + n)),
                    Err((e, m)) => Err((e, w + m)),
                }
            } else if tag == 1 {
                match <u32 as Serialize>::spec_from_bytes(b.skip(w as int), sw) {
                    Ok((target, n)) => Ok((Instruction::Jump(target), w + n)),
                    Err((e, m)) => Err((e, w + m)),
                }
            } else {
                Ok((Instruction::Halt, w))
            },
            Err(x) => Err(x),
        }
    }

    proof fn lemma_from_bytes_len(b: Seq<u8>, sw: nat) {
        let w = spec_tag_width(3);
        <(u8, u8, u8) as Serialize>::lemma_from_bytes_len(b.skip(w as int), sw);
        <u32 as Serialize>::lemma_from_bytes_len(b.skip(w as int), sw);
    }

    proof fn lemma_prefix_tolerance(b: Seq<u8>, rest: Seq<u8>, sw: nat) {
        lemma_pow256_16();
        lemma_read_fixed_prefix(b, rest, 1);
        assert((b + rest).skip(1) =~= b.skip(1) + rest);
        let tag = spec_read_tag(b, 3)->Ok_0;
        if tag == 0 {
            <(u8, u8, u8) as Serialize>::lemma_prefix_tolerance(b.skip(1), rest, sw);
        } else if tag == 1 {
            <u32 as Serialize>::lemma_prefix_tolerance(b.skip(1), rest, sw);
        }
    }

    proof fn lemma_round_trip(v: Instruction, sw: nat, rest: Seq<u8>) {
        lemma_pow256_16();
        let e = Self::spec_into_bytes(v, sw)->Ok_0;
        match v {
            Instruction::Add { a, b, addr } => {
                let f = <(u8, u8, u8) as Serialize>::spec_into_bytes((a, b, addr), sw)->Ok_0;
                lemma_tag_round_trip(0, 3, f + rest);
                assert(e + rest =~= spec_tag_bytes(0, 3) + (f + rest));
                assert((e + rest).skip(1) =~= f + rest);
                assert(view_of::<(u8, u8, u8)>((a, b, addr)) == (a, b, addr));
                <(u8, u8, u8) as Serialize>::lemma_round_trip((a, b, addr), sw, rest);
            },
            Instruction::Jump(target) => {
                let f = <u32 as Serialize>::spec_into_bytes(target, sw)->Ok_0;
                lemma_tag_round_trip(1, 3, f + rest);
                assert(e + rest =~= spec_tag_bytes(1, 3) + (f + rest));
                assert((e + rest).skip(1) =~= f + rest);
                assert(view_of::<u32>(target) == target);
                <u32 as Serialize>::lemma_round_trip(target, sw, rest);
            },
            Instruction::Halt => {
                lemma_tag_round_trip(2, 3, rest);
            },
        }
    }

    fn from_bytes<S: Size>(b: &mut &[u8]) -> (r: Result<Instruction, Error>) {
        let tag = read_tag(INSTRUCTION_VARIANTS, b)?;
        if tag == 0 {
            let (a, x, addr) = <(u8, u8, u8)>::from_bytes::<S>(b)?;
            Ok(Instruction::Add { a, b: x, addr })
        } else if tag == 1 {
            let target = u32::from_bytes::<S>(b)?;
            Ok(Instruction::Jump(target))
        } else {
            Ok(Instruction::Halt)
        }
    }

    fn into_bytes<S: Size>(&self, b: &mut Vec<u8>) -> (r: Result<(), Error>) {
        match self {
            Instruction::Add { a, b: x, addr } => {
                write_tag(0, INSTRUCTION_VARIANTS, b);
                (*a, *x, *addr).into_bytes::<S>(b)?;
            },
            Instruction::Jump(target) => {
                write_tag(1, INSTRUCTION_VARIANTS, b);
                target.into_bytes::<S>(b)?;
            },
            Instruction::Halt => {
                write_tag(2, INSTRUCTION_VARIANTS, b);
            },
        }
        Ok(())
    }
}

} // verus!
