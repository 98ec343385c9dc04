//! Fixed-shape aggregates: tuples, arrays, optional and boxed values.
use vstd::prelude::*;

use crate::error::Error;
use crate::sequence::{
    lemma_elems_from_bytes_len, lemma_elems_prefix_tolerance, lemma_elems_round_trip, read_elems, spec_elems_from_bytes,
    spec_elems_into_bytes, write_elems,
};
use crate::serialize::{group_cursor, is_view, view_of, Decoded, Encoded, Serialize, Size};

verus! {

broadcast use group_cursor;

impl Serialize for () {
    /// Nothing at all.
    open spec fn spec_into_bytes(v: (), sw: nat) -> Encoded {
        Ok(seq![])
    }

    open spec fn spec_from_bytes(b: Seq<u8>, sw: nat) -> Decoded<()> {
        Ok(((), 0))
    }

    proof fn lemma_from_bytes_len(b: Seq<u8>, sw: nat) {
    }

    proof fn lemma_prefix_tolerance(b: Seq<u8>, rest: Seq<u8>, sw: nat) {
    }

    proof fn lemma_round_trip(v: (), sw: nat, rest: Seq<u8>) {
    }

    fn from_bytes<S: Size>(b: &mut &[u8]) -> (r: Result<(), Error>) {
        assert(b@ =~= b@.skip(0));
        Ok(())
    }

    fn into_bytes<S: Size>(&self, b: &mut Vec<u8>) -> (r: Result<(), Error>) {
        assert(b@ =~= old(b)@ + seq![]);
        Ok(())
    }
}

impl<A: Serialize> Serialize for (A,) {
    /// Each component in order.
    open spec fn spec_into_bytes(v: (<A as DeepView>::V,), sw: nat) -> Encoded {
        match A::spec_into_bytes(v.0, sw) {
            Ok(e0) => Ok(e0),
            Err((x, w)) => Err((x, w)),
        }
    }

    open spec fn spec_from_bytes(b: Seq<u8>, sw: nat) -> Decoded<(<A as DeepView>::V,)> {
        match A::spec_from_bytes(b, sw) {
            Ok((x0, n0)) => Ok(((x0,), n0)),
            Err((e, m)) => Err((e, m)),
        }
    }

    proof fn lemma_from_bytes_len(b: Seq<u8>, sw: nat) {
        A::lemma_from_bytes_len(b, sw);
    }

    proof fn lemma_prefix_tolerance(b: Seq<u8>, rest: Seq<u8>, sw: nat) {
        let n0 = (A::spec_from_bytes(b, sw)->Ok_0).1;
        A::lemma_from_bytes_len(b, sw);
        A::lemma_prefix_tolerance(b, rest, sw);
    }

    proof fn lemma_round_trip(v: (<A as DeepView>::V,), sw: nat, rest: Seq<u8>) {
        let x = choose|x: (A,)| #[trigger] view_of::<(A,)>(x) == v;
        assert(view_of::<A>(x.0) == v.0);
        let e0 = A::spec_into_bytes(v.0, sw)->Ok_0;
        let r0 = e0 + rest;
        let full = (e0) + rest;
        assert(full =~= r0);
        A::lemma_round_trip(v.0, sw, rest);
    }

    fn from_bytes<S: Size>(b: &mut &[u8]) -> (r: Result<(A,), Error>) {
        let ghost b0 = b@;
        let x0 = A::from_bytes::<S>(b)?;
        let ghost n0 = (A::spec_from_bytes(b0, S::width())->Ok_0).1;
        assert(b@ =~= b0.skip((n0) as int));
        Ok((x0,))
    }

    fn into_bytes<S: Size>(&self, b: &mut Vec<u8>) -> (r: Result<(), Error>) {
        let ghost e0 = A::spec_into_bytes(self.0.deep_view(), S::width())->Ok_0;
        self.0.into_bytes::<S>(b)?;
        assert(b@ =~= old(b)@ + (e0));
        Ok(())
    }
}

impl<A: Serialize, B: Serialize> Serialize for (A, B) {
    open spec fn spec_into_bytes(v: (<A as DeepView>::V, <B as DeepView>::V), sw: nat) -> Encoded {
        match A::spec_into_bytes(v.0, sw) {
            Ok(e0) => match B::spec_into_bytes(v.1, sw) {
            Ok(e1) => Ok(e0 + e1),
            Err((x, w)) => Err((x, e0 + w)),
        },
            Err((x, w)) => Err((x, w)),
        }
    }

    open spec fn spec_from_bytes(b: Seq<u8>, sw: nat) -> Decoded<(<A as DeepView>::V, <B as DeepView>::V)> {
        match A::spec_from_bytes(b, sw) {
            Ok((x0, n0)) => match B::spec_from_bytes(b.skip((n0) as int), sw) {
            Ok((x1, n1)) => Ok(((x0, x1), n0 + n1)),
            Err((e, m)) => Err((e, n0 + m)),
        },
            Err((e, m)) => Err((e, m)),
        }
    }

    proof fn lemma_from_bytes_len(b: Seq<u8>, sw: nat) {
        A::lemma_from_bytes_len(b, sw);
        if let Ok((x0, n0)) = A::spec_from_bytes(b, sw) {
            B::lemma_from_bytes_len(b.skip((n0) as int), sw);
        }
    }

    proof fn lemma_prefix_tolerance(b: Seq<u8>, rest: Seq<u8>, sw: nat) {
        let n0 = (A::spec_from_bytes(b, sw)->Ok_0).1;
        A::lemma_from_bytes_len(b, sw);
        A::lemma_prefix_tolerance(b, rest, sw);
        let n1 = (B::spec_from_bytes(b.skip((n0) as int), sw)->Ok_0).1;
        B::lemma_from_bytes_len(b.skip((n0) as int), sw);
        assert((b + rest).skip((n0) as int) =~= b.skip((n0) as int) + rest);
        B::lemma_prefix_tolerance(b.skip((n0) as int), rest, sw);
    }

    proof fn lemma_round_trip(v: (<A as DeepView>::V, <B as DeepView>::V), sw: nat, rest: Seq<u8>) {
        let x = choose|x: (A, B)| #[trigger] view_of::<(A, B)>(x) == v;
        assert(view_of::<A>(x.0) == v.0);
        assert(view_of::<B>(x.1) == v.1);
        let e0 = A::spec_into_bytes(v.0, sw)->Ok_0;
        let e1 = B::spec_into_bytes(v.1, sw)->Ok_0;
        let r1 = e1 + rest;
        let r0 = e0 + r1;
        let full = (e0 + e1) + rest;
        assert(full =~= r0);
        A::lemma_round_trip(v.0, sw, r1);
        B::lemma_round_trip(v.1, sw, rest);
        assert(full.skip((e0.len()) as int) =~= r1);
    }

    fn from_bytes<S: Size>(b: &mut &[u8]) -> (r: Result<(A, B), Error>) {
        let ghost b0 = b@;
        let x0 = A::from_bytes::<S>(b)?;
        let ghost n0 = (A::spec_from_bytes(b0, S::width())->Ok_0).1;
        let x1 = B::from_bytes::<S>(b)?;
        let ghost n1 = (B::spec_from_bytes(b0.skip((n0) as int), S::width())->Ok_0).1;
        assert(b@ =~= b0.skip((n0 + n1) as int));
        Ok((x0, x1))
    }

    fn into_bytes<S: Size>(&self, b: &mut Vec<u8>) -> (r: Result<(), Error>) {
        let ghost e0 = A::spec_into_bytes(self.0.deep_view(), S::width())->Ok_0;
        let ghost e1 = B::spec_into_bytes(self.1.deep_view(), S::width())->Ok_0;
        self.0.into_bytes::<S>(b)?;
        self.1.into_bytes::<S>(b)?;
        assert(b@ =~= old(b)@ + (e0 + e1));
        Ok(())
    }
}

impl<A: Serialize, B: Serialize, C: Serialize> Serialize for (A, B, C) {
    open spec fn spec_into_bytes(v: (<A as DeepView>::V, <B as DeepView>::V, <C as DeepView>::V), sw: nat) -> Encoded {
        match A::spec_into_bytes(v.0, sw) {
            Ok(e0) => match B::spec_into_bytes(v.1, sw) {
            Ok(e1) => match C::spec_into_bytes(v.2, sw) {
            Ok(e2) => Ok(e0 + e1 + e2),
            Err((x, w)) => Err((x, e0 + e1 + w)),
        },
            Err((x, w)) => Err((x, e0 + w)),
        },
            Err((x, w)) => Err((x, w)),
        }
    }

    open spec fn spec_from_bytes(b: Seq<u8>, sw: nat) -> Decoded<(<A as DeepView>::V, <B as DeepView>::V, <C as DeepView>::V)> {
        match A::spec_from_bytes(b, sw) {
            Ok((x0, n0)) => match B::spec_from_bytes(b.skip((n0) as int), sw) {
            Ok((x1, n1)) => match C::spec_from_bytes(b.skip((n0 + n1) as int), sw) {
            Ok((x2, n2)) => Ok(((x0, x1, x2), n0 + n1 + n2)),
            Err((e, m)) => Err((e, n0 + n1 + m)),
        },
            Err((e, m)) => Err((e, n0 + m)),
        },
            Err((e, m)) => Err((e, m)),
        }
    }

    proof fn lemma_from_bytes_len(b: Seq<u8>, sw: nat) {
        A::lemma_from_bytes_len(b, sw);
        if let Ok((x0, n0)) = A::spec_from_bytes(b, sw) {
            B::lemma_from_bytes_len(b.skip((n0) as int), sw);
            if let Ok((x1, n1)) = B::spec_from_bytes(b.skip((n0) as int), sw) {
                C::lemma_from_bytes_len(b.skip((n0 + n1) as int), sw);
            }
        }
    }

    proof fn lemma_prefix_tolerance(b: Seq<u8>, rest: Seq<u8>, sw: nat) {
        let n0 = (A::spec_from_bytes(b, sw)->Ok_0).1;
        A::lemma_from_bytes_len(b, sw);
        A::lemma_prefix_tolerance(b, rest, sw);
        let n1 = (B::spec_from_bytes(b.skip((n0) as int), sw)->Ok_0).1;
        B::lemma_from_bytes_len(b.skip((n0) as int), sw);
        assert((b + rest).skip((n0) as int) =~= b.skip((n0) as int) + rest);
        B::lemma_prefix_tolerance(b.skip((n0) as int), rest, sw);
        let n2 = (C::spec_from_bytes(b.skip((n0 + n1) as int), sw)->Ok_0).1;
        C::lemma_from_bytes_len(b.skip((n0 + n1) as int), sw);
        assert((b + rest).skip((n0 + n1) as int) =~= b.skip((n0 + n1) as int) + rest);
        C::lemma_prefix_tolerance(b.skip((n0 + n1) as int), rest, sw);
    }

    proof fn lemma_round_trip(v: (<A as DeepView>::V, <B as DeepView>::V, <C as DeepView>::V), sw: nat, rest: Seq<u8>) {
        let x = choose|x: (A, B, C)| #[trigger] view_of::<(A, B, C)>(x) == v;
        assert(view_of::<A>(x.0) == v.0);
        assert(view_of::<B>(x.1) == v.1);
        assert(view_of::<C>(x.2) == v.2);
        let e0 = A::spec_into_bytes(v.0, sw)->Ok_0;
        let e1 = B::spec_into_bytes(v.1, sw)->Ok_0;
        let e2 = C::spec_into_bytes(v.2, sw)->Ok_0;
        let r2 = e2 + rest;
        let r1 = e1 + r2;
        let r0 = e0 + r1;
        let full = (e0 + e1 + e2) + rest;
        assert(full =~= r0);
        A::lemma_round_trip(v.0, sw, r1);
        B::lemma_round_trip(v.1, sw, r2);
        assert(full.skip((e0.len()) as int) =~= r1);
        C::lemma_round_trip(v.2, sw, rest);
        assert(full.skip((e0.len() + e1.len()) as int) =~= r2);
    }

    fn from_bytes<S: Size>(b: &mut &[u8]) -> (r: Result<(A, B, C), Error>) {
        let ghost b0 = b@;
        let x0 = A::from_bytes::<S>(b)?;
        let ghost n0 = (A::spec_from_bytes(b0, S::width())->Ok_0).1;
        let x1 = B::from_bytes::<S>(b)?;
        let ghost n1 = (B::spec_from_bytes(b0.skip((n0) as int), S::width())->Ok_0).1;
        assert(b@ =~= b0.skip((n0 + n1) as int));
        let x2 = C::from_bytes::<S>(b)?;
        let ghost n2 = (C::spec_from_bytes(b0.skip((n0 + n1) as int), S::width())->Ok_0).1;
        assert(b@ =~= b0.skip((n0 + n1 + n2) as int));
        Ok((x0, x1, x2))
    }

    fn into_bytes<S: Size>(&self, b: &mut Vec<u8>) -> (r: Result<(), Error>) {
        let ghost e0 = A::spec_into_bytes(self.0.deep_view(), S::width())->Ok_0;
        let ghost e1 = B::spec_into_bytes(self.1.deep_view(), S::width())->Ok_0;
        let ghost e2 = C::spec_into_bytes(self.2.deep_view(), S::width())->Ok_0;
        self.0.into_bytes::<S>(b)?;
        self.1.into_bytes::<S>(b)?;
        assert(b@ =~= old(b)@ + (e0 + e1));
        self.2.into_bytes::<S>(b)?;
        assert(b@ =~= old(b)@ + (e0 + e1 + e2));
        Ok(())
    }
}

impl<A: Serialize, B: Serialize, C: Serialize, D: Serialize> Serialize for (A, B, C, D) {
    open spec fn spec_into_bytes(v: (<A as DeepView>::V, <B as DeepView>::V, <C as DeepView>::V, <D as DeepView>::V), sw: nat) -> Encoded {
        match A::spec_into_bytes(v.0, sw) {
            Ok(e0) => match B::spec_into_bytes(v.1, sw) {
            Ok(e1) => match C::spec_into_bytes(v.2, sw) {
            Ok(e2) => match D::spec_into_bytes(v.3, sw) {
            Ok(e3) => Ok(e0 + e1 + e2 + e3),
            Err((x, w)) => Err((x, e0 + e1 + e2 + w)),
        },
            Err((x, w)) => Err((x, e0 + e1 + w)),
        },
            Err((x, w)) => Err((x, e0 + w)),
        },
            Err((x, w)) => Err((x, w)),
        }
    }

    open spec fn spec_from_bytes(b: Seq<u8>, sw: nat) -> Decoded<(<A as DeepView>::V, <B as DeepView>::V, <C as DeepView>::V, <D as DeepView>::V)> {
        match A::spec_from_bytes(b, sw) {
            Ok((x0, n0)) => match B::spec_from_bytes(b.skip((n0) as int), sw) {
            Ok((x1, n1)) => match C::spec_from_bytes(b.skip((n0 + n1) as int), sw) {
            Ok((x2, n2)) => match D::spec_from_bytes(b.skip((n0 + n1 + n2) as int), sw) {
            Ok((x3, n3)) => Ok(((x0, x1, x2, x3), n0 + n1 + n2 + n3)),
            Err((e, m)) => Err((e, n0 + n1 + n2 + m)),
        },
            Err((e, m)) => Err((e, n0 + n1 + m)),
        },
            Err((e, m)) => Err((e, n0 + m)),
        },
            Err((e, m)) => Err((e, m)),
        }
    }

    proof fn lemma_from_bytes_len(b: Seq<u8>, sw: nat) {
        A::lemma_from_bytes_len(b, sw);
        if let Ok((x0, n0)) = A::spec_from_bytes(b, sw) {
            B::lemma_from_bytes_len(b.skip((n0) as int), sw);
            if let Ok((x1, n1)) = B::spec_from_bytes(b.skip((n0) as int), sw) {
                C::lemma_from_bytes_len(b.skip((n0 + n1) as int), sw);
                if let Ok((x2, n2)) = C::spec_from_bytes(b.skip((n0 + n1) as int), sw) {
                    D::lemma_from_bytes_len(b.skip((n0 + n1 + n2) as int), sw);
                }
            }
        }
    }

    proof fn lemma_prefix_tolerance(b: Seq<u8>, rest: Seq<u8>, sw: nat) {
        let n0 = (A::spec_from_bytes(b, sw)->Ok_0).1;
        A::lemma_from_bytes_len(b, sw);
        A::lemma_prefix_tolerance(b, rest, sw);
        let n1 = (B::spec_from_bytes(b.skip((n0) as int), sw)->Ok_0).1;
        B::lemma_from_bytes_len(b.skip((n0) as int), sw);
        assert((b + rest).skip((n0) as int) =~= b.skip((n0) as int) + rest);
        B::lemma_prefix_tolerance(b.skip((n0) as int), rest, sw);
        let n2 = (C::spec_from_bytes(b.skip((n0 + n1) as int), sw)->Ok_0).1;
        C::lemma_from_bytes_len(b.skip((n0 + n1) as int), sw);
        assert((b + rest).skip((n0 + n1) as int) =~= b.skip((n0 + n1) as int) + rest);
        C::lemma_prefix_tolerance(b.skip((n0 + n1) as int), rest, sw);
        let n3 = (D::spec_from_bytes(b.skip((n0 + n1 + n2) as int), sw)->Ok_0).1;
        D::lemma_from_bytes_len(b.skip((n0 + n1 + n2) as int), sw);
        assert((b + rest).skip((n0 + n1 + n2) as int) =~= b.skip((n0 + n1 + n2) as int) + rest);
        D::lemma_prefix_tolerance(b.skip((n0 + n1 + n2) as int), rest, sw);
    }

    proof fn lemma_round_trip(v: (<A as DeepView>::V, <B as DeepView>::V, <C as DeepView>::V, <D as DeepView>::V), sw: nat, rest: Seq<u8>) {
        let x = choose|x: (A, B, C, D)| #[trigger] view_of::<(A, B, C, D)>(x) == v;
        assert(view_of::<A>(x.0) == v.0);
        assert(view_of::<B>(x.1) == v.1);
        assert(view_of::<C>(x.2) == v.2);
        assert(view_of::<D>(x.3) == v.3);
        let e0 = A::spec_into_bytes(v.0, sw)->Ok_0;
        let e1 = B::spec_into_bytes(v.1, sw)->Ok_0;
        let e2 = C::spec_into_bytes(v.2, sw)->Ok_0;
        let e3 = D::spec_into_bytes(v.3, sw)->Ok_0;
        let r3 = e3 + rest;
        let r2 = e2 + r3;
        let r1 = e1 + r2;
        let r0 = e0 + r1;
        let full = (e0 + e1 + e2 + e3) + rest;
        assert(full =~= r0);
        A::lemma_round_trip(v.0, sw, r1);
        B::lemma_round_trip(v.1, sw, r2);
        assert(full.skip((e0.len()) as int) =~= r1);
        C::lemma_round_trip(v.2, sw, r3);
        assert(full.skip((e0.len() + e1.len()) as int) =~= r2);
        D::lemma_round_trip(v.3, sw, rest);
        assert(full.skip((e0.len() + e1.len() + e2.len()) as int) =~= r3);
    }

    fn from_bytes<S: Size>(b: &mut &[u8]) -> (r: Result<(A, B, C, D), Error>) {
        let ghost b0 = b@;
        let x0 = A::from_bytes::<S>(b)?;
        let ghost n0 = (A::spec_from_bytes(b0, S::width())->Ok_0).1;
        let x1 = B::from_bytes::<S>(b)?;
        let ghost n1 = (B::spec_from_bytes(b0.skip((n0) as int), S::width())->Ok_0).1;
        assert(b@ =~= b0.skip((n0 + n1) as int));
        let x2 = C::from_bytes::<S>(b)?;
        let ghost n2 = (C::spec_from_bytes(b0.skip((n0 + n1) as int), S::width())->Ok_0).1;
        assert(b@ =~= b0.skip((n0 + n1 + n2) as int));
        let x3 = D::from_bytes::<S>(b)?;
        let ghost n3 = (D::spec_from_bytes(b0.skip((n0 + n1 + n2) as int), S::width())->Ok_0).1;
        assert(b@ =~= b0.skip((n0 + n1 + n2 + n3) as int));
        Ok((x0, x1, x2, x3))
    }

    fn into_bytes<S: Size>(&self, b: &mut Vec<u8>) -> (r: Result<(), Error>) {
        let ghost e0 = A::spec_into_bytes(self.0.deep_view(), S::width())->Ok_0;
        let ghost e1 = B::spec_into_bytes(self.1.deep_view(), S::width())->Ok_0;
        let ghost e2 = C::spec_into_bytes(self.2.deep_view(), S::width())->Ok_0;
        let ghost e3 = D::spec_into_bytes(self.3.deep_view(), S::width())->Ok_0;
        self.0.into_bytes::<S>(b)?;
        self.1.into_bytes::<S>(b)?;
        assert(b@ =~= old(b)@ + (e0 + e1));
        self.2.into_bytes::<S>(b)?;
        assert(b@ =~= old(b)@ + (e0 + e1 + e2));
        self.3.into_bytes::<S>(b)?;
        assert(b@ =~= old(b)@ + (e0 + e1 + e2 + e3));
        Ok(())
    }
}

impl<A: Serialize, B: Serialize, C: Serialize, D: Serialize, E: Serialize> Serialize for (A, B, C, D, E) {
    open spec fn spec_into_bytes(v: (<A as DeepView>::V, <B as DeepView>::V, <C as DeepView>::V, <D as DeepView>::V, <E as DeepView>::V), sw: nat) -> Encoded {
        match A::spec_into_bytes(v.0, sw) {
            Ok(e0) => match B::spec_into_bytes(v.1, sw) {
            Ok(e1) => match C::spec_into_bytes(v.2, sw) {
            Ok(e2) => match D::spec_into_bytes(v.3, sw) {
            Ok(e3) => match E::spec_into_bytes(v.4, sw) {
            Ok(e4) => Ok(e0 + e1 + e2 + e3 + e4),
            Err((x, w)) => Err((x, e0 + e1 + e2 + e3 + w)),
        },
            Err((x, w)) => Err((x, e0 + e1 + e2 + w)),
        },
            Err((x, w)) => Err((x, e0 + e1 + w)),
        },
            Err((x, w)) => Err((x, e0 + w)),
        },
            Err((x, w)) => Err((x, w)),
        }
    }

    open spec fn spec_from_bytes(b: Seq<u8>, sw: nat) -> Decoded<(<A as DeepView>::V, <B as DeepView>::V, <C as DeepView>::V, <D as DeepView>::V, <E as DeepView>::V)> {
        match A::spec_from_bytes(b, sw) {
            Ok((x0, n0)) => match B::spec_from_bytes(b.skip((n0) as int), sw) {
            Ok((x1, n1)) => match C::spec_from_bytes(b.skip((n0 + n1) as int), sw) {
            Ok((x2, n2)) => match D::spec_from_bytes(b.skip((n0 + n1 + n2) as int), sw) {
            Ok((x3, n3)) => match E::spec_from_bytes(b.skip((n0 + n1 + n2 + n3) as int), sw) {
            Ok((x4, n4)) => Ok(((x0, x1, x2, x3, x4), n0 + n1 + n2 + n3 + n4)),
            Err((e, m)) => Err((e, n0 + n1 + n2 + n3 + m)),
        },
            Err((e, m)) => Err((e, n0 + n1 + n2 + m)),
        },
            Err((e, m)) => Err((e, n0 + n1 + m)),
        },
            Err((e, m)) => Err((e, n0 + m)),
        },
            Err((e, m)) => Err((e, m)),
        }
    }

    proof fn lemma_from_bytes_len(b: Seq<u8>, sw: nat) {
        A::lemma_from_bytes_len(b, sw);
        if let Ok((x0, n0)) = A::spec_from_bytes(b, sw) {
            B::lemma_from_bytes_len(b.skip((n0) as int), sw);
            if let Ok((x1, n1)) = B::spec_from_bytes(b.skip((n0) as int), sw) {
                C::lemma_from_bytes_len(b.skip((n0 + n1) as int), sw);
                if let Ok((x2, n2)) = C::spec_from_bytes(b.skip((n0 + n1) as int), sw) {
                    D::lemma_from_bytes_len(b.skip((n0 + n1 + n2) as int), sw);
                    if let Ok((x3, n3)) = D::spec_from_bytes(b.skip((n0 + n1 + n2) as int), sw) {
                        E::lemma_from_bytes_len(b.skip((n0 + n1 + n2 + n3) as int), sw);
                    }
                }
            }
        }
    }

    proof fn lemma_prefix_tolerance(b: Seq<u8>, rest: Seq<u8>, sw: nat) {
        let n0 = (A::spec_from_bytes(b, sw)->Ok_0).1;
        A::lemma_from_bytes_len(b, sw);
        A::lemma_prefix_tolerance(b, rest, sw);
        let n1 = (B::spec_from_bytes(b.skip((n0) as int), sw)->Ok_0).1;
        B::lemma_from_bytes_len(b.skip((n0) as int), sw);
        assert((b + rest).skip((n0) as int) =~= b.skip((n0) as int) + rest);
        B::lemma_prefix_tolerance(b.skip((n0) as int), rest, sw);
        let n2 = (C::spec_from_bytes(b.skip((n0 + n1) as int), sw)->Ok_0).1;
        C::lemma_from_bytes_len(b.skip((n0 + n1) as int), sw);
        assert((b + rest).skip((n0 + n1) as int) =~= b.skip((n0 + n1) as int) + rest);
        C::lemma_prefix_tolerance(b.skip((n0 + n1) as int), rest, sw);
        let n3 = (D::spec_from_bytes(b.skip((n0 + n1 + n2) as int), sw)->Ok_0).1;
        D::lemma_from_bytes_len(b.skip((n0 + n1 + n2) as int), sw);
        assert((b + rest).skip((n0 + n1 + n2) as int) =~= b.skip((n0 + n1 + n2) as int) + rest);
        D::lemma_prefix_tolerance(b.skip((n0 + n1 + n2) as int), rest, sw);
        let n4 = (E::spec_from_bytes(b.skip((n0 + n1 + n2 + n3) as int), sw)->Ok_0).1;
        E::lemma_from_bytes_len(b.skip((n0 + n1 + n2 + n3) as int), sw);
        assert((b + rest).skip((n0 + n1 + n2 + n3) as int) =~= b.skip((n0 + n1 + n2 + n3) as int) + rest);
        E::lemma_prefix_tolerance(b.skip((n0 + n1 + n2 + n3) as int), rest, sw);
    }

    proof fn lemma_round_trip(v: (<A as DeepView>::V, <B as DeepView>::V, <C as DeepView>::V, <D as DeepView>::V, <E as DeepView>::V), sw: nat, rest: Seq<u8>) {
        let x = choose|x: (A, B, C, D, E)| #[trigger] view_of::<(A, B, C, D, E)>(x) == v;
        assert(view_of::<A>(x.0) == v.0);
        assert(view_of::<B>(x.1) == v.1);
        assert(view_of::<C>(x.2) == v.2);
        assert(view_of::<D>(x.3) == v.3);
        assert(view_of::<E>(x.4) == v.4);
        let e0 = A::spec_into_bytes(v.0, sw)->Ok_0;
        let e1 = B::spec_into_bytes(v.1, sw)->Ok_0;
        let e2 = C::spec_into_bytes(v.2, sw)->Ok_0;
        let e3 = D::spec_into_bytes(v.3, sw)->Ok_0;
        let e4 = E::spec_into_bytes(v.4, sw)->Ok_0;
        let r4 = e4 + rest;
        let r3 = e3 + r4;
        let r2 = e2 + r3;
        let r1 = e1 + r2;
        let r0 = e0 + r1;
        let full = (e0 + e1 + e2 + e3 + e4) + rest;
        assert(full =~= r0);
        A::lemma_round_trip(v.0, sw, r1);
        B::lemma_round_trip(v.1, sw, r2);
        assert(full.skip((e0.len()) as int) =~= r1);
        C::lemma_round_trip(v.2, sw, r3);
        assert(full.skip((e0.len() + e1.len()) as int) =~= r2);
        D::lemma_round_trip(v.3, sw, r4);
        assert(full.skip((e0.len() + e1.len() + e2.len()) as int) =~= r3);
        E::lemma_round_trip(v.4, sw, rest);
        assert(full.skip((e0.len() + e1.len() + e2.len() + e3.len()) as int) =~= r4);
    }

    fn from_bytes<S: Size>(b: &mut &[u8]) -> (r: Result<(A, B, C, D, E), Error>) {
        let ghost b0 = b@;
        let x0 = A::from_bytes::<S>(b)?;
        let ghost n0 = (A::spec_from_bytes(b0, S::width())->Ok_0).1;
        let x1 = B::from_bytes::<S>(b)?;
        let ghost n1 = (B::spec_from_bytes(b0.skip((n0) as int), S::width())->Ok_0).1;
        assert(b@ =~= b0.skip((n0 + n1) as int));
        let x2 = C::from_bytes::<S>(b)?;
        let ghost n2 = (C::spec_from_bytes(b0.skip((n0 + n1) as int), S::width())->Ok_0).1;
        assert(b@ =~= b0.skip((n0 + n1 + n2) as int));
        let x3 = D::from_bytes::<S>(b)?;
        let ghost n3 = (D::spec_from_bytes(b0.skip((n0 + n1 + n2) as int), S::width())->Ok_0).1;
        assert(b@ =~= b0.skip((n0 + n1 + n2 + n3) as int));
        let x4 = E::from_bytes::<S>(b)?;
        let ghost n4 = (E::spec_from_bytes(b0.skip((n0 + n1 + n2 + n3) as int), S::width())->Ok_0).1;
        assert(b@ =~= b0.skip((n0 + n1 + n2 + n3 + n4) as int));
        Ok((x0, x1, x2, x3, x4))
    }

    fn into_bytes<S: Size>(&self, b: &mut Vec<u8>) -> (r: Result<(), Error>) {
        let ghost e0 = A::spec_into_bytes(self.0.deep_view(), S::width())->Ok_0;
        let ghost e1 = B::spec_into_bytes(self.1.deep_view(), S::width())->Ok_0;
        let ghost e2 = C::spec_into_bytes(self.2.deep_view(), S::width())->Ok_0;
        let ghost e3 = D::spec_into_bytes(self.3.deep_view(), S::width())->Ok_0;
        let ghost e4 = E::spec_into_bytes(self.4.deep_view(), S::width())->Ok_0;
        self.0.into_bytes::<S>(b)?;
        self.1.into_bytes::<S>(b)?;
        assert(b@ =~= old(b)@ + (e0 + e1));
        self.2.into_bytes::<S>(b)?;
        assert(b@ =~= old(b)@ + (e0 + e1 + e2));
        self.3.into_bytes::<S>(b)?;
        assert(b@ =~= old(b)@ + (e0 + e1 + e2 + e3));
        self.4.into_bytes::<S>(b)?;
        assert(b@ =~= old(b)@ + (e0 + e1 + e2 + e3 + e4));
        Ok(())
    }
}

impl<A: Serialize, B: Serialize, C: Serialize, D: Serialize, E: Serialize, F: Serialize> Serialize for (A, B, C, D, E, F) {
    open spec fn spec_into_bytes(v: (<A as DeepView>::V, <B as DeepView>::V, <C as DeepView>::V, <D as DeepView>::V, <E as DeepView>::V, <F as DeepView>::V), sw: nat) -> Encoded {
        match A::spec_into_bytes(v.0, sw) {
            Ok(e0) => match B::spec_into_bytes(v.1, sw) {
            Ok(e1) => match C::spec_into_bytes(v.2, sw) {
            Ok(e2) => match D::spec_into_bytes(v.3, sw) {
            Ok(e3) => match E::spec_into_bytes(v.4, sw) {
            Ok(e4) => match F::spec_into_bytes(v.5, sw) {
            Ok(e5) => Ok(e0 + e1 + e2 + e3 + e4 + e5),
            Err((x, w)) => Err((x, e0 + e1 + e2 + e3 + e4 + w)),
        },
            Err((x, w)) => Err((x, e0 + e1 + e2 + e3 + w)),
        },
            Err((x, w)) => Err((x, e0 + e1 + e2 + w)),
        },
            Err((x, w)) => Err((x, e0 + e1 + w)),
        },
            Err((x, w)) => Err((x, e0 + w)),
        },
            Err((x, w)) => Err((x, w)),
        }
    }

    open spec fn spec_from_bytes(b: Seq<u8>, sw: nat) -> Decoded<(<A as DeepView>::V, <B as DeepView>::V, <C as DeepView>::V, <D as DeepView>::V, <E as DeepView>::V, <F as DeepView>::V)> {
        match A::spec_from_bytes(b, sw) {
            Ok((x0, n0)) => match B::spec_from_bytes(b.skip((n0) as int), sw) {
            Ok((x1, n1)) => match C::spec_from_bytes(b.skip((n0 + n1) as int), sw) {
            Ok((x2, n2)) => match D::spec_from_bytes(b.skip((n0 + n1 + n2) as int), sw) {
            Ok((x3, n3)) => match E::spec_from_bytes(b.skip((n0 + n1 + n2 + n3) as int), sw) {
            Ok((x4, n4)) => match F::spec_from_bytes(b.skip((n0 + n1 + n2 + n3 + n4) as int), sw) {
            Ok((x5, n5)) => Ok(((x0, x1, x2, x3, x4, x5), n0 + n1 + n2 + n3 + n4 + n5)),
            Err((e, m)) => Err((e, n0 + n1 + n2 + n3 + n4 + m)),
        },
            Err((e, m)) => Err((e, n0 + n1 + n2 + n3 + m)),
        },
            Err((e, m)) => Err((e, n0 + n1 + n2 + m)),
        },
            Err((e, m)) => Err((e, n0 + n1 + m)),
        },
            Err((e, m)) => Err((e, n0 + m)),
        },
            Err((e, m)) => Err((e, m)),
        }
    }

    proof fn lemma_from_bytes_len(b: Seq<u8>, sw: nat) {
        A::lemma_from_bytes_len(b, sw);
        if let Ok((x0, n0)) = A::spec_from_bytes(b, sw) {
            B::lemma_from_bytes_len(b.skip((n0) as int), sw);
            if let Ok((x1, n1)) = B::spec_from_bytes(b.skip((n0) as int), sw) {
                C::lemma_from_bytes_len(b.skip((n0 + n1) as int), sw);
                if let Ok((x2, n2)) = C::spec_from_bytes(b.skip((n0 + n1) as int), sw) {
                    D::lemma_from_bytes_len(b.skip((n0 + n1 + n2) as int), sw);
                    if let Ok((x3, n3)) = D::spec_from_bytes(b.skip((n0 + n1 + n2) as int), sw) {
                        E::lemma_from_bytes_len(b.skip((n0 + n1 + n2 + n3) as int), sw);
                        if let Ok((x4, n4)) = E::spec_from_bytes(b.skip((n0 + n1 + n2 + n3) as int), sw) {
                            F::lemma_from_bytes_len(b.skip((n0 + n1 + n2 + n3 + n4) as int), sw);
                        }
                    }
                }
            }
        }
    }

    proof fn lemma_prefix_tolerance(b: Seq<u8>, rest: Seq<u8>, sw: nat) {
        let n0 = (A::spec_from_bytes(b, sw)->Ok_0).1;
        A::lemma_from_bytes_len(b, sw);
        A::lemma_prefix_tolerance(b, rest, sw);
        let n1 = (B::spec_from_bytes(b.skip((n0) as int), sw)->Ok_0).1;
        B::lemma_from_bytes_len(b.skip((n0) as int), sw);
        assert((b + rest).skip((n0) as int) =~= b.skip((n0) as int) + rest);
        B::lemma_prefix_tolerance(b.skip((n0) as int), rest, sw);
        let n2 = (C::spec_from_bytes(b.skip((n0 + n1) as int), sw)->Ok_0).1;
        C::lemma_from_bytes_len(b.skip((n0 + n1) as int), sw);
        assert((b + rest).skip((n0 + n1) as int) =~= b.skip((n0 + n1) as int) + rest);
        C::lemma_prefix_tolerance(b.skip((n0 + n1) as int), rest, sw);
        let n3 = (D::spec_from_bytes(b.skip((n0 + n1 + n2) as int), sw)->Ok_0).1;
        D::lemma_from_bytes_len(b.skip((n0 + n1 + n2) as int), sw);
        assert((b + rest).skip((n0 + n1 + n2) as int) =~= b.skip((n0 + n1 + n2) as int) + rest);
        D::lemma_prefix_tolerance(b.skip((n0 + n1 + n2) as int), rest, sw);
        let n4 = (E::spec_from_bytes(b.skip((n0 + n1 + n2 + n3) as int), sw)->Ok_0).1;
        E::lemma_from_bytes_len(b.skip((n0 + n1 + n2 + n3) as int), sw);
        assert((b + rest).skip((n0 + n1 + n2 + n3) as int) =~= b.skip((n0 + n1 + n2 + n3) as int) + rest);
        E::lemma_prefix_tolerance(b.skip((n0 + n1 + n2 + n3) as int), rest, sw);
        let n5 = (F::spec_from_bytes(b.skip((n0 + n1 + n2 + n3 + n4) as int), sw)->Ok_0).1;
        F::lemma_from_bytes_len(b.skip((n0 + n1 + n2 + n3 + n4) as int), sw);
        assert((b + rest).skip((n0 + n1 + n2 + n3 + n4) as int) =~= b.skip((n0 + n1 + n2 + n3 + n4) as int) + rest);
        F::lemma_prefix_tolerance(b.skip((n0 + n1 + n2 + n3 + n4) as int), rest, sw);
    }

    proof fn lemma_round_trip(v: (<A as DeepView>::V, <B as DeepView>::V, <C as DeepView>::V, <D as DeepView>::V, <E as DeepView>::V, <F as DeepView>::V), sw: nat, rest: Seq<u8>) {
        let x = choose|x: (A, B, C, D, E, F)| #[trigger] view_of::<(A, B, C, D, E, F)>(x) == v;
        assert(view_of::<A>(x.0) == v.0);
        assert(view_of::<B>(x.1) == v.1);
        assert(view_of::<C>(x.2) == v.2);
        assert(view_of::<D>(x.3) == v.3);
        assert(view_of::<E>(x.4) == v.4);
        assert(view_of::<F>(x.5) == v.5);
        let e0 = A::spec_into_bytes(v.0, sw)->Ok_0;
        let e1 = B::spec_into_bytes(v.1, sw)->Ok_0;
        let e2 = C::spec_into_bytes(v.2, sw)->Ok_0;
        let e3 = D::spec_into_bytes(v.3, sw)->Ok_0;
        let e4 = E::spec_into_bytes(v.4, sw)->Ok_0;
        let e5 = F::spec_into_bytes(v.5, sw)->Ok_0;
        let r5 = e5 + rest;
        let r4 = e4 + r5;
        let r3 = e3 + r4;
        let r2 = e2 + r3;
        let r1 = e1 + r2;
        let r0 = e0 + r1;
        let full = (e0 + e1 + e2 + e3 + e4 + e5) + rest;
        assert(full =~= r0);
        A::lemma_round_trip(v.0, sw, r1);
        B::lemma_round_trip(v.1, sw, r2);
        assert(full.skip((e0.len()) as int) =~= r1);
        C::lemma_round_trip(v.2, sw, r3);
        assert(full.skip((e0.len() + e1.len()) as int) =~= r2);
        D::lemma_round_trip(v.3, sw, r4);
        assert(full.skip((e0.len() + e1.len() + e2.len()) as int) =~= r3);
        E::lemma_round_trip(v.4, sw, r5);
        assert(full.skip((e0.len() + e1.len() + e2.len() + e3.len()) as int) =~= r4);
        F::lemma_round_trip(v.5, sw, rest);
        assert(full.skip((e0.len() + e1.len() + e2.len() + e3.len() + e4.len()) as int) =~= r5);
    }

    #[verifier::rlimit(80)]
    fn from_bytes<S: Size>(b: &mut &[u8]) -> (r: Result<(A, B, C, D, E, F), Error>) {
        let ghost b0 = b@;
        let x0 = A::from_bytes::<S>(b)?;
        let ghost n0 = (A::spec_from_bytes(b0, S::width())->Ok_0).1;
        let x1 = B::from_bytes::<S>(b)?;
        let ghost n1 = (B::spec_from_bytes(b0.skip((n0) as int), S::width())->Ok_0).1;
        assert(b@ =~= b0.skip((n0 + n1) as int));
        let x2 = C::from_bytes::<S>(b)?;
        let ghost n2 = (C::spec_from_bytes(b0.skip((n0 + n1) as int), S::width())->Ok_0).1;
        assert(b@ =~= b0.skip((n0 + n1 + n2) as int));
        let x3 = D::from_bytes::<S>(b)?;
        let ghost n3 = (D::spec_from_bytes(b0.skip((n0 + n1 + n2) as int), S::width())->Ok_0).1;
        assert(b@ =~= b0.skip((n0 + n1 + n2 + n3) as int));
        let x4 = E::from_bytes::<S>(b)?;
        let ghost n4 = (E::spec_from_bytes(b0.skip((n0 + n1 + n2 + n3) as int), S::width())->Ok_0).1;
        assert(b@ =~= b0.skip((n0 + n1 + n2 + n3 + n4) as int));
        let x5 = F::from_bytes::<S>(b)?;
        let ghost n5 = (F::spec_from_bytes(b0.skip((n0 + n1 + n2 + n3 + n4) as int), S::width())->Ok_0).1;
        assert(b@ =~= b0.skip((n0 + n1 + n2 + n3 + n4 + n5) as int));
        Ok((x0, x1, x2, x3, x4, x5))
    }

    #[verifier::rlimit(80)]
    fn into_bytes<S: Size>(&self, b: &mut Vec<u8>) -> (r: Result<(), Error>) {
        let ghost e0 = A::spec_into_bytes(self.0.deep_view(), S::width())->Ok_0;
        let ghost e1 = B::spec_into_bytes(self.1.deep_view(), S::width())->Ok_0;
        let ghost e2 = C::spec_into_bytes(self.2.deep_view(), S::width())->Ok_0;
        let ghost e3 = D::spec_into_bytes(self.3.deep_view(), S::width())->Ok_0;
        let ghost e4 = E::spec_into_bytes(self.4.deep_view(), S::width())->Ok_0;
        let ghost e5 = F::spec_into_bytes(self.5.deep_view(), S::width())->Ok_0;
        self.0.into_bytes::<S>(b)?;
        self.1.into_bytes::<S>(b)?;
        assert(b@ =~= old(b)@ + (e0 + e1));
        self.2.into_bytes::<S>(b)?;
        assert(b@ =~= old(b)@ + (e0 + e1 + e2));
        self.3.into_bytes::<S>(b)?;
        assert(b@ =~= old(b)@ + (e0 + e1 + e2 + e3));
        self.4.into_bytes::<S>(b)?;
        assert(b@ =~= old(b)@ + (e0 + e1 + e2 + e3 + e4));
        self.5.into_bytes::<S>(b)?;
        assert(b@ =~= old(b)@ + (e0 + e1 + e2 + e3 + e4 + e5));
        Ok(())
    }
}

impl<A: Serialize, B: Serialize, C: Serialize, D: Serialize, E: Serialize, F: Serialize, G: Serialize> Serialize for (A, B, C, D, E, F, G) {
    open spec fn spec_into_bytes(v: (<A as DeepView>::V, <B as DeepView>::V, <C as DeepView>::V, <D as DeepView>::V, <E as DeepView>::V, <F as DeepView>::V, <G as DeepView>::V), sw: nat) -> Encoded {
        match A::spec_into_bytes(v.0, sw) {
            Ok(e0) => match B::spec_into_bytes(v.1, sw) {
            Ok(e1) => match C::spec_into_bytes(v.2, sw) {
            Ok(e2) => match D::spec_into_bytes(v.3, sw) {
            Ok(e3) => match E::spec_into_bytes(v.4, sw) {
            Ok(e4) => match F::spec_into_bytes(v.5, sw) {
            Ok(e5) => match G::spec_into_bytes(v.6, sw) {
            Ok(e6) => Ok(e0 + e1 + e2 + e3 + e4 + e5 + e6),
            Err((x, w)) => Err((x, e0 + e1 + e2 + e3 + e4 + e5 + w)),
        },
            Err((x, w)) => Err((x, e0 + e1 + e2 + e3 + e4 + w)),
        },
            Err((x, w)) => Err((x, e0 + e1 + e2 + e3 + w)),
        },
            Err((x, w)) => Err((x, e0 + e1 + e2 + w)),
        },
            Err((x, w)) => Err((x, e0 + e1 + w)),
        },
            Err((x, w)) => Err((x, e0 + w)),
        },
            Err((x, w)) => Err((x, w)),
        }
    }

    open spec fn spec_from_bytes(b: Seq<u8>, sw: nat) -> Decoded<(<A as DeepView>::V, <B as DeepView>::V, <C as DeepView>::V, <D as DeepView>::V, <E as DeepView>::V, <F as DeepView>::V, <G as DeepView>::V)> {
        match A::spec_from_bytes(b, sw) {
            Ok((x0, n0)) => match B::spec_from_bytes(b.skip((n0) as int), sw) {
            Ok((x1, n1)) => match C::spec_from_bytes(b.skip((n0 + n1) as int), sw) {
            Ok((x2, n2)) => match D::spec_from_bytes(b.skip((n0 + n1 + n2) as int), sw) {
            Ok((x3, n3)) => match E::spec_from_bytes(b.skip((n0 + n1 + n2 + n3) as int), sw) {
            Ok((x4, n4)) => match F::spec_from_bytes(b.skip((n0 + n1 + n2 + n3 + n4) as int), sw) {
            Ok((x5, n5)) => match G::spec_from_bytes(b.skip((n0 + n1 + n2 + n3 + n4 + n5) as int), sw) {
            Ok((x6, n6)) => Ok(((x0, x1, x2, x3, x4, x5, x6), n0 + n1 + n2 + n3 + n4 + n5 + n6)),
            Err((e, m)) => Err((e, n0 + n1 + n2 + n3 + n4 + n5 + m)),
        },
            Err((e, m)) => Err((e, n0 + n1 + n2 + n3 + n4 + m)),
        },
            Err((e, m)) => Err((e, n0 + n1 + n2 + n3 + m)),
        },
            Err((e, m)) => Err((e, n0 + n1 + n2 + m)),
        },
            Err((e, m)) => Err((e, n0 + n1 + m)),
        },
            Err((e, m)) => Err((e, n0 + m)),
        },
            Err((e, m)) => Err((e, m)),
        }
    }

    proof fn lemma_from_bytes_len(b: Seq<u8>, sw: nat) {
        A::lemma_from_bytes_len(b, sw);
        if let Ok((x0, n0)) = A::spec_from_bytes(b, sw) {
            B::lemma_from_bytes_len(b.skip((n0) as int), sw);
            if let Ok((x1, n1)) = B::spec_from_bytes(b.skip((n0) as int), sw) {
                C::lemma_from_bytes_len(b.skip((n0 + n1) as int), sw);
                if let Ok((x2, n2)) = C::spec_from_bytes(b.skip((n0 + n1) as int), sw) {
                    D::lemma_from_bytes_len(b.skip((n0 + n1 + n2) as int), sw);
                    if let Ok((x3, n3)) = D::spec_from_bytes(b.skip((n0 + n1 + n2) as int), sw) {
                        E::lemma_from_bytes_len(b.skip((n0 + n1 + n2 + n3) as int), sw);
                        if let Ok((x4, n4)) = E::spec_from_bytes(b.skip((n0 + n1 + n2 + n3) as int), sw) {
                            F::lemma_from_bytes_len(b.skip((n0 + n1 + n2 + n3 + n4) as int), sw);
                            if let Ok((x5, n5)) = F::spec_from_bytes(b.skip((n0 + n1 + n2 + n3 + n4) as int), sw) {
                                G::lemma_from_bytes_len(b.skip((n0 + n1 + n2 + n3 + n4 + n5) as int), sw);
                            }
                        }
                    }
                }
            }
        }
    }

    proof fn lemma_prefix_tolerance(b: Seq<u8>, rest: Seq<u8>, sw: nat) {
        let n0 = (A::spec_from_bytes(b, sw)->Ok_0).1;
        A::lemma_from_bytes_len(b, sw);
        A::lemma_prefix_tolerance(b, rest, sw);
        let n1 = (B::spec_from_bytes(b.skip((n0) as int), sw)->Ok_0).1;
        B::lemma_from_bytes_len(b.skip((n0) as int), sw);
        assert((b + rest).skip((n0) as int) =~= b.skip((n0) as int) + rest);
        B::lemma_prefix_tolerance(b.skip((n0) as int), rest, sw);
        let n2 = (C::spec_from_bytes(b.skip((n0 + n1) as int), sw)->Ok_0).1;
        C::lemma_from_bytes_len(b.skip((n0 + n1) as int), sw);
        assert((b + rest).skip((n0 + n1) as int) =~= b.skip((n0 + n1) as int) + rest);
        C::lemma_prefix_tolerance(b.skip((n0 + n1) as int), rest, sw);
        let n3 = (D::spec_from_bytes(b.skip((n0 + n1 + n2) as int), sw)->Ok_0).1;
        D::lemma_from_bytes_len(b.skip((n0 + n1 + n2) as int), sw);
        assert((b + rest).skip((n0 + n1 + n2) as int) =~= b.skip((n0 + n1 + n2) as int) + rest);
        D::lemma_prefix_tolerance(b.skip((n0 + n1 + n2) as int), rest, sw);
        let n4 = (E::spec_from_bytes(b.skip((n0 + n1 + n2 + n3) as int), sw)->Ok_0).1;
        E::lemma_from_bytes_len(b.skip((n0 + n1 + n2 + n3) as int), sw);
        assert((b + rest).skip((n0 + n1 + n2 + n3) as int) =~= b.skip((n0 + n1 + n2 + n3) as int) + rest);
        E::lemma_prefix_tolerance(b.skip((n0 + n1 + n2 + n3) as int), rest, sw);
        let n5 = (F::spec_from_bytes(b.skip((n0 + n1 + n2 + n3 + n4) as int), sw)->Ok_0).1;
        F::lemma_from_bytes_len(b.skip((n0 + n1 + n2 + n3 + n4) as int), sw);
        assert((b + rest).skip((n0 + n1 + n2 + n3 + n4) as int) =~= b.skip((n0 + n1 + n2 + n3 + n4) as int) + rest);
        F::lemma_prefix_tolerance(b.skip((n0 + n1 + n2 + n3 + n4) as int), rest, sw);
        let n6 = (G::spec_from_bytes(b.skip((n0 + n1 + n2 + n3 + n4 + n5) as int), sw)->Ok_0).1;
        G::lemma_from_bytes_len(b.skip((n0 + n1 + n2 + n3 + n4 + n5) as int), sw);
        assert((b + rest).skip((n0 + n1 + n2 + n3 + n4 + n5) as int) =~= b.skip((n0 + n1 + n2 + n3 + n4 + n5) as int) + rest);
        G::lemma_prefix_tolerance(b.skip((n0 + n1 + n2 + n3 + n4 + n5) as int), rest, sw);
    }

    proof fn lemma_round_trip(v: (<A as DeepView>::V, <B as DeepView>::V, <C as DeepView>::V, <D as DeepView>::V, <E as DeepView>::V, <F as DeepView>::V, <G as DeepView>::V), sw: nat, rest: Seq<u8>) {
        let x = choose|x: (A, B, C, D, E, F, G)| #[trigger] view_of::<(A, B, C, D, E, F, G)>(x) == v;
        assert(view_of::<A>(x.0) == v.0);
        assert(view_of::<B>(x.1) == v.1);
        assert(view_of::<C>(x.2) == v.2);
        assert(view_of::<D>(x.3) == v.3);
        assert(view_of::<E>(x.4) == v.4);
        assert(view_of::<F>(x.5) == v.5);
        assert(view_of::<G>(x.6) == v.6);
        let e0 = A::spec_into_bytes(v.0, sw)->Ok_0;
        let e1 = B::spec_into_bytes(v.1, sw)->Ok_0;
        let e2 = C::spec_into_bytes(v.2, sw)->Ok_0;
        let e3 = D::spec_into_bytes(v.3, sw)->Ok_0;
        let e4 = E::spec_into_bytes(v.4, sw)->Ok_0;
        let e5 = F::spec_into_bytes(v.5, sw)->Ok_0;
        let e6 = G::spec_into_bytes(v.6, sw)->Ok_0;
        let r6 = e6 + rest;
        let r5 = e5 + r6;
        let r4 = e4 + r5;
        let r3 = e3 + r4;
        let r2 = e2 + r3;
        let r1 = e1 + r2;
        let r0 = e0 + r1;
        let full = (e0 + e1 + e2 + e3 + e4 + e5 + e6) + rest;
        assert(full =~= r0);
        A::lemma_round_trip(v.0, sw, r1);
        B::lemma_round_trip(v.1, sw, r2);
        assert(full.skip((e0.len()) as int) =~= r1);
        C::lemma_round_trip(v.2, sw, r3);
        assert(full.skip((e0.len() + e1.len()) as int) =~= r2);
        D::lemma_round_trip(v.3, sw, r4);
        assert(full.skip((e0.len() + e1.len() + e2.len()) as int) =~= r3);
        E::lemma_round_trip(v.4, sw, r5);
        assert(full.skip((e0.len() + e1.len() + e2.len() + e3.len()) as int) =~= r4);
        F::lemma_round_trip(v.5, sw, r6);
        assert(full.skip((e0.len() + e1.len() + e2.len() + e3.len() + e4.len()) as int) =~= r5);
        G::lemma_round_trip(v.6, sw, rest);
        assert(full.skip((e0.len() + e1.len() + e2.len() + e3.len() + e4.len() + e5.len()) as int) =~= r6);
    }

    #[verifier::rlimit(80)]
    fn from_bytes<S: Size>(b: &mut &[u8]) -> (r: Result<(A, B, C, D, E, F, G), Error>) {
        let ghost b0 = b@;
        let x0 = A::from_bytes::<S>(b)?;
        let ghost n0 = (A::spec_from_bytes(b0, S::width())->Ok_0).1;
        let x1 = B::from_bytes::<S>(b)?;
        let ghost n1 = (B::spec_from_bytes(b0.skip((n0) as int), S::width())->Ok_0).1;
        assert(b@ =~= b0.skip((n0 + n1) as int));
        let x2 = C::from_bytes::<S>(b)?;
        let ghost n2 = (C::spec_from_bytes(b0.skip((n0 + n1) as int), S::width())->Ok_0).1;
        assert(b@ =~= b0.skip((n0 + n1 + n2) as int));
        let x3 = D::from_bytes::<S>(b)?;
        let ghost n3 = (D::spec_from_bytes(b0.skip((n0 + n1 + n2) as int), S::width())->Ok_0).1;
        assert(b@ =~= b0.skip((n0 + n1 + n2 + n3) as int));
        let x4 = E::from_bytes::<S>(b)?;
        let ghost n4 = (E::spec_from_bytes(b0.skip((n0 + n1 + n2 + n3) as int), S::width())->Ok_0).1;
        assert(b@ =~= b0.skip((n0 + n1 + n2 + n3 + n4) as int));
        let x5 = F::from_bytes::<S>(b)?;
        let ghost n5 = (F::spec_from_bytes(b0.skip((n0 + n1 + n2 + n3 + n4) as int), S::width())->Ok_0).1;
        assert(b@ =~= b0.skip((n0 + n1 + n2 + n3 + n4 + n5) as int));
        let x6 = G::from_bytes::<S>(b)?;
        let ghost n6 = (G::spec_from_bytes(b0.skip((n0 + n1 + n2 + n3 + n4 + n5) as int), S::width())->Ok_0).1;
        assert(b@ =~= b0.skip((n0 + n1 + n2 + n3 + n4 + n5 + n6) as int));
        Ok((x0, x1, x2, x3, x4, x5, x6))
    }

    #[verifier::rlimit(80)]
    fn into_bytes<S: Size>(&self, b: &mut Vec<u8>) -> (r: Result<(), Error>) {
        let ghost e0 = A::spec_into_bytes(self.0.deep_view(), S::width())->Ok_0;
        let ghost e1 = B::spec_into_bytes(self.1.deep_view(), S::width())->Ok_0;
        let ghost e2 = C::spec_into_bytes(self.2.deep_view(), S::width())->Ok_0;
        let ghost e3 = D::spec_into_bytes(self.3.deep_view(), S::width())->Ok_0;
        let ghost e4 = E::spec_into_bytes(self.4.deep_view(), S::width())->Ok_0;
        let ghost e5 = F::spec_into_bytes(self.5.deep_view(), S::width())->Ok_0;
        let ghost e6 = G::spec_into_bytes(self.6.deep_view(), S::width())->Ok_0;
        self.0.into_bytes::<S>(b)?;
        self.1.into_bytes::<S>(b)?;
        assert(b@ =~= old(b)@ + (e0 + e1));
        self.2.into_bytes::<S>(b)?;
        assert(b@ =~= old(b)@ + (e0 + e1 + e2));
        self.3.into_bytes::<S>(b)?;
        assert(b@ =~= old(b)@ + (e0 + e1 + e2 + e3));
        self.4.into_bytes::<S>(b)?;
        assert(b@ =~= old(b)@ + (e0 + e1 + e2 + e3 + e4));
        self.5.into_bytes::<S>(b)?;
        assert(b@ =~= old(b)@ + (e0 + e1 + e2 + e3 + e4 + e5));
        self.6.into_bytes::<S>(b)?;
        assert(b@ =~= old(b)@ + (e0 + e1 + e2 + e3 + e4 + e5 + e6));
        Ok(())
    }
}

impl<A: Serialize, B: Serialize, C: Serialize, D: Serialize, E: Serialize, F: Serialize, G: Serialize, H: Serialize> Serialize for (A, B, C, D, E, F, G, H) {
    open spec fn spec_into_bytes(v: (<A as DeepView>::V, <B as DeepView>::V, <C as DeepView>::V, <D as DeepView>::V, <E as DeepView>::V, <F as DeepView>::V, <G as DeepView>::V, <H as DeepView>::V), sw: nat) -> Encoded {
        match A::spec_into_bytes(v.0, sw) {
            Ok(e0) => match B::spec_into_bytes(v.1, sw) {
            Ok(e1) => match C::spec_into_bytes(v.2, sw) {
            Ok(e2) => match D::spec_into_bytes(v.3, sw) {
            Ok(e3) => match E::spec_into_bytes(v.4, sw) {
            Ok(e4) => match F::spec_into_bytes(v.5, sw) {
            Ok(e5) => match G::spec_into_bytes(v.6, sw) {
            Ok(e6) => match H::spec_into_bytes(v.7, sw) {
            Ok(e7) => Ok(e0 + e1 + e2 + e3 + e4 + e5 + e6 + e7),
            Err((x, w)) => Err((x, e0 + e1 + e2 + e3 + e4 + e5 + e6 + w)),
        },
            Err((x, w)) => Err((x, e0 + e1 + e2 + e3 + e4 + e5 + w)),
        },
            Err((x, w)) => Err((x, e0 + e1 + e2 + e3 + e4 + w)),
        },
            Err((x, w)) => Err((x, e0 + e1 + e2 + e3 + w)),
        },
            Err((x, w)) => Err((x, e0 + e1 + e2 + w)),
        },
            Err((x, w)) => Err((x, e0 + e1 + w)),
        },
            Err((x, w)) => Err((x, e0 + w)),
        },
            Err((x, w)) => Err((x, w)),
        }
    }

    open spec fn spec_from_bytes(b: Seq<u8>, sw: nat) -> Decoded<(<A as DeepView>::V, <B as DeepView>::V, <C as DeepView>::V, <D as DeepView>::V, <E as DeepView>::V, <F as DeepView>::V, <G as DeepView>::V, <H as DeepView>::V)> {
        match A::spec_from_bytes(b, sw) {
            Ok((x0, n0)) => match B::spec_from_bytes(b.skip((n0) as int), sw) {
            Ok((x1, n1)) => match C::spec_from_bytes(b.skip((n0 + n1) as int), sw) {
            Ok((x2, n2)) => match D::spec_from_bytes(b.skip((n0 + n1 + n2) as int), sw) {
            Ok((x3, n3)) => match E::spec_from_bytes(b.skip((n0 + n1 + n2 + n3) as int), sw) {
            Ok((x4, n4)) => match F::spec_from_bytes(b.skip((n0 + n1 + n2 + n3 + n4) as int), sw) {
            Ok((x5, n5)) => match G::spec_from_bytes(b.skip((n0 + n1 + n2 + n3 + n4 + n5) as int), sw) {
            Ok((x6, n6)) => match H::spec_from_bytes(b.skip((n0 + n1 + n2 + n3 + n4 + n5 + n6) as int), sw) {
            Ok((x7, n7)) => Ok(((x0, x1, x2, x3, x4, x5, x6, x7), n0 + n1 + n2 + n3 + n4 + n5 + n6 + n7)),
            Err((e, m)) => Err((e, n0 + n1 + n2 + n3 + n4 + n5 + n6 + m)),
        },
            Err((e, m)) => Err((e, n0 + n1 + n2 + n3 + n4 + n5 + m)),
        },
            Err((e, m)) => Err((e, n0 + n1 + n2 + n3 + n4 + m)),
        },
            Err((e, m)) => Err((e, n0 + n1 + n2 + n3 + m)),
        },
            Err((e, m)) => Err((e, n0 + n1 + n2 + m)),
        },
            Err((e, m)) => Err((e, n0 + n1 + m)),
        },
            Err((e, m)) => Err((e, n0 + m)),
        },
            Err((e, m)) => Err((e, m)),
        }
    }

    proof fn lemma_from_bytes_len(b: Seq<u8>, sw: nat) {
        A::lemma_from_bytes_len(b, sw);
        if let Ok((x0, n0)) = A::spec_from_bytes(b, sw) {
            B::lemma_from_bytes_len(b.skip((n0) as int), sw);
            if let Ok((x1, n1)) = B::spec_from_bytes(b.skip((n0) as int), sw) {
                C::lemma_from_bytes_len(b.skip((n0 + n1) as int), sw);
                if let Ok((x2, n2)) = C::spec_from_bytes(b.skip((n0 + n1) as int), sw) {
                    D::lemma_from_bytes_len(b.skip((n0 + n1 + n2) as int), sw);
                    if let Ok((x3, n3)) = D::spec_from_bytes(b.skip((n0 + n1 + n2) as int), sw) {
                        E::lemma_from_bytes_len(b.skip((n0 + n1 + n2 + n3) as int), sw);
                        if let Ok((x4, n4)) = E::spec_from_bytes(b.skip((n0 + n1 + n2 + n3) as int), sw) {
                            F::lemma_from_bytes_len(b.skip((n0 + n1 + n2 + n3 + n4) as int), sw);
                            if let Ok((x5, n5)) = F::spec_from_bytes(b.skip((n0 + n1 + n2 + n3 + n4) as int), sw) {
                                G::lemma_from_bytes_len(b.skip((n0 + n1 + n2 + n3 + n4 + n5) as int), sw);
                                if let Ok((x6, n6)) = G::spec_from_bytes(b.skip((n0 + n1 + n2 + n3 + n4 + n5) as int), sw) {
                                    H::lemma_from_bytes_len(b.skip((n0 + n1 + n2 + n3 + n4 + n5 + n6) as int), sw);
                                }
                            }
                        }
                    }
                }
            }
        }
    }

    proof fn lemma_prefix_tolerance(b: Seq<u8>, rest: Seq<u8>, sw: nat) {
        let n0 = (A::spec_from_bytes(b, sw)->Ok_0).1;
        A::lemma_from_bytes_len(b, sw);
        A::lemma_prefix_tolerance(b, rest, sw);
        let n1 = (B::spec_from_bytes(b.skip((n0) as int), sw)->Ok_0).1;
        B::lemma_from_bytes_len(b.skip((n0) as int), sw);
        assert((b + rest).skip((n0) as int) =~= b.skip((n0) as int) + rest);
        B::lemma_prefix_tolerance(b.skip((n0) as int), rest, sw);
        let n2 = (C::spec_from_bytes(b.skip((n0 + n1) as int), sw)->Ok_0).1;
        C::lemma_from_bytes_len(b.skip((n0 + n1) as int), sw);
        assert((b + rest).skip((n0 + n1) as int) =~= b.skip((n0 + n1) as int) + rest);
        C::lemma_prefix_tolerance(b.skip((n0 + n1) as int), rest, sw);
        let n3 = (D::spec_from_bytes(b.skip((n0 + n1 + n2) as int), sw)->Ok_0).1;
        D::lemma_from_bytes_len(b.skip((n0 + n1 + n2) as int), sw);
        assert((b + rest).skip((n0 + n1 + n2) as int) =~= b.skip((n0 + n1 + n2) as int) + rest);
        D::lemma_prefix_tolerance(b.skip((n0 + n1 + n2) as int), rest, sw);
        let n4 = (E::spec_from_bytes(b.skip((n0 + n1 + n2 + n3) as int), sw)->Ok_0).1;
        E::lemma_from_bytes_len(b.skip((n0 + n1 + n2 + n3) as int), sw);
        assert((b + rest).skip((n0 + n1 + n2 + n3) as int) =~= b.skip((n0 + n1 + n2 + n3) as int) + rest);
        E::lemma_prefix_tolerance(b.skip((n0 + n1 + n2 + n3) as int), rest, sw);
        let n5 = (F::spec_from_bytes(b.skip((n0 + n1 + n2 + n3 + n4) as int), sw)->Ok_0).1;
        F::lemma_from_bytes_len(b.skip((n0 + n1 + n2 + n3 + n4) as int), sw);
        assert((b + rest).skip((n0 + n1 + n2 + n3 + n4) as int) =~= b.skip((n0 + n1 + n2 + n3 + n4) as int) + rest);
        F::lemma_prefix_tolerance(b.skip((n0 + n1 + n2 + n3 + n4) as int), rest, sw);
        let n6 = (G::spec_from_bytes(b.skip((n0 + n1 + n2 + n3 + n4 + n5) as int), sw)->Ok_0).1;
        G::lemma_from_bytes_len(b.skip((n0 + n1 + n2 + n3 + n4 + n5) as int), sw);
        assert((b + rest).skip((n0 + n1 + n2 + n3 + n4 + n5) as int) =~= b.skip((n0 + n1 + n2 + n3 + n4 + n5) as int) + rest);
        G::lemma_prefix_tolerance(b.skip((n0 + n1 + n2 + n3 + n4 + n5) as int), rest, sw);
        let n7 = (H::spec_from_bytes(b.skip((n0 + n1 + n2 + n3 + n4 + n5 + n6) as int), sw)->Ok_0).1;
        H::lemma_from_bytes_len(b.skip((n0 + n1 + n2 + n3 + n4 + n5 + n6) as int), sw);
        assert((b + rest).skip((n0 + n1 + n2 + n3 + n4 + n5 + n6) as int) =~= b.skip((n0 + n1 + n2 + n3 + n4 + n5 + n6) as int) + rest);
        H::lemma_prefix_tolerance(b.skip((n0 + n1 + n2 + n3 + n4 + n5 + n6) as int), rest, sw);
    }

    proof fn lemma_round_trip(v: (<A as DeepView>::V, <B as DeepView>::V, <C as DeepView>::V, <D as DeepView>::V, <E as DeepView>::V, <F as DeepView>::V, <G as DeepView>::V, <H as DeepView>::V), sw: nat, rest: Seq<u8>) {
        let x = choose|x: (A, B, C, D, E, F, G, H)| #[trigger] view_of::<(A, B, C, D, E, F, G, H)>(x) == v;
        assert(view_of::<A>(x.0) == v.0);
        assert(view_of::<B>(x.1) == v.1);
        assert(view_of::<C>(x.2) == v.2);
        assert(view_of::<D>(x.3) == v.3);
        assert(view_of::<E>(x.4) == v.4);
        assert(view_of::<F>(x.5) == v.5);
        assert(view_of::<G>(x.6) == v.6);
        assert(view_of::<H>(x.7) == v.7);
        let e0 = A::spec_into_bytes(v.0, sw)->Ok_0;
        let e1 = B::spec_into_bytes(v.1, sw)->Ok_0;
        let e2 = C::spec_into_bytes(v.2, sw)->Ok_0;
        let e3 = D::spec_into_bytes(v.3, sw)->Ok_0;
        let e4 = E::spec_into_bytes(v.4, sw)->Ok_0;
        let e5 = F::spec_into_bytes(v.5, sw)->Ok_0;
        let e6 = G::spec_into_bytes(v.6, sw)->Ok_0;
        let e7 = H::spec_into_bytes(v.7, sw)->Ok_0;
        let r7 = e7 + rest;
        let r6 = e6 + r7;
        let r5 = e5 + r6;
        let r4 = e4 + r5;
        let r3 = e3 + r4;
        let r2 = e2 + r3;
        let r1 = e1 + r2;
        let r0 = e0 + r1;
        let full = (e0 + e1 + e2 + e3 + e4 + e5 + e6 + e7) + rest;
        assert(full =~= r0);
        A::lemma_round_trip(v.0, sw, r1);
        B::lemma_round_trip(v.1, sw, r2);
        assert(full.skip((e0.len()) as int) =~= r1);
        C::lemma_round_trip(v.2, sw, r3);
        assert(full.skip((e0.len() + e1.len()) as int) =~= r2);
        D::lemma_round_trip(v.3, sw, r4);
        assert(full.skip((e0.len() + e1.len() + e2.len()) as int) =~= r3);
        E::lemma_round_trip(v.4, sw, r5);
        assert(full.skip((e0.len() + e1.len() + e2.len() + e3.len()) as int) =~= r4);
        F::lemma_round_trip(v.5, sw, r6);
        assert(full.skip((e0.len() + e1.len() + e2.len() + e3.len() + e4.len()) as int) =~= r5);
        G::lemma_round_trip(v.6, sw, r7);
        assert(full.skip((e0.len() + e1.len() + e2.len() + e3.len() + e4.len() + e5.len()) as int) =~= r6);
        H::lemma_round_trip(v.7, sw, rest);
        assert(full.skip((e0.len() + e1.len() + e2.len() + e3.len() + e4.len() + e5.len() + e6.len()) as int) =~= r7);
    }

    #[verifier::rlimit(80)]
    fn from_bytes<S: Size>(b: &mut &[u8]) -> (r: Result<(A, B, C, D, E, F, G, H), Error>) {
        let ghost b0 = b@;
        let x0 = A::from_bytes::<S>(b)?;
        let ghost n0 = (A::spec_from_bytes(b0, S::width())->Ok_0).1;
        let x1 = B::from_bytes::<S>(b)?;
        let ghost n1 = (B::spec_from_bytes(b0.skip((n0) as int), S::width())->Ok_0).1;
        assert(b@ =~= b0.skip((n0 + n1) as int));
        let x2 = C::from_bytes::<S>(b)?;
        let ghost n2 = (C::spec_from_bytes(b0.skip((n0 + n1) as int), S::width())->Ok_0).1;
        assert(b@ =~= b0.skip((n0 + n1 + n2) as int));
        let x3 = D::from_bytes::<S>(b)?;
        let ghost n3 = (D::spec_from_bytes(b0.skip((n0 + n1 + n2) as int), S::width())->Ok_0).1;
        assert(b@ =~= b0.skip((n0 + n1 + n2 + n3) as int));
        let x4 = E::from_bytes::<S>(b)?;
        let ghost n4 = (E::spec_from_bytes(b0.skip((n0 + n1 + n2 + n3) as int), S::width())->Ok_0).1;
        assert(b@ =~= b0.skip((n0 + n1 + n2 + n3 + n4) as int));
        let x5 = F::from_bytes::<S>(b)?;
        let ghost n5 = (F::spec_from_bytes(b0.skip((n0 + n1 + n2 + n3 + n4) as int), S::width())->Ok_0).1;
        assert(b@ =~= b0.skip((n0 + n1 + n2 + n3 + n4 + n5) as int));
        let x6 = G::from_bytes::<S>(b)?;
        let ghost n6 = (G::spec_from_bytes(b0.skip((n0 + n1 + n2 + n3 + n4 + n5) as int), S::width())->Ok_0).1;
        assert(b@ =~= b0.skip((n0 + n1 + n2 + n3 + n4 + n5 + n6) as int));
        let x7 = H::from_bytes::<S>(b)?;
        let ghost n7 = (H::spec_from_bytes(b0.skip((n0 + n1 + n2 + n3 + n4 + n5 + n6) as int), S::width())->Ok_0).1;
        assert(b@ =~= b0.skip((n0 + n1 + n2 + n3 + n4 + n5 + n6 + n7) as int));
        Ok((x0, x1, x2, x3, x4, x5, x6, x7))
    }

    #[verifier::rlimit(80)]
    fn into_bytes<S: Size>(&self, b: &mut Vec<u8>) -> (r: Result<(), Error>) {
        let ghost e0 = A::spec_into_bytes(self.0.deep_view(), S::width())->Ok_0;
        let ghost e1 = B::spec_into_bytes(self.1.deep_view(), S::width())->Ok_0;
        let ghost e2 = C::spec_into_bytes(self.2.deep_view(), S::width())->Ok_0;
        let ghost e3 = D::spec_into_bytes(self.3.deep_view(), S::width())->Ok_0;
        let ghost e4 = E::spec_into_bytes(self.4.deep_view(), S::width())->Ok_0;
        let ghost e5 = F::spec_into_bytes(self.5.deep_view(), S::width())->Ok_0;
        let ghost e6 = G::spec_into_bytes(self.6.deep_view(), S::width())->Ok_0;
        let ghost e7 = H::spec_into_bytes(self.7.deep_view(), S::width())->Ok_0;
        self.0.into_bytes::<S>(b)?;
        self.1.into_bytes::<S>(b)?;
        assert(b@ =~= old(b)@ + (e0 + e1));
        self.2.into_bytes::<S>(b)?;
        assert(b@ =~= old(b)@ + (e0 + e1 + e2));
        self.3.into_bytes::<S>(b)?;
        assert(b@ =~= old(b)@ + (e0 + e1 + e2 + e3));
        self.4.into_bytes::<S>(b)?;
        assert(b@ =~= old(b)@ + (e0 + e1 + e2 + e3 + e4));
        self.5.into_bytes::<S>(b)?;
        assert(b@ =~= old(b)@ + (e0 + e1 + e2 + e3 + e4 + e5));
        self.6.into_bytes::<S>(b)?;
        assert(b@ =~= old(b)@ + (e0 + e1 + e2 + e3 + e4 + e5 + e6));
        self.7.into_bytes::<S>(b)?;
        assert(b@ =~= old(b)@ + (e0 + e1 + e2 + e3 + e4 + e5 + e6 + e7));
        Ok(())
    }
}

/// Relies on `TryFrom<Vec<T>>` for `[T; N]`: a vector of exactly `N` elements converts into
/// the array of those elements, in order.
#[verifier::external_body]
fn array_from_vec<T, const N: usize>(v: Vec<T>) -> (r: [T; N])
    requires
        v@.len() == N,
    ensures
        r@ == v@,
{
    <[T; N]>::try_from(v).ok().unwrap()
}

impl<B: Serialize, const N: usize> Serialize for [B; N] {
    /// Each element in order, with no length prefix.
    open spec fn spec_into_bytes(v: Seq<<B as DeepView>::V>, sw: nat) -> Encoded {
        spec_elems_into_bytes::<B>(v, sw)
    }

    open spec fn spec_from_bytes(b: Seq<u8>, sw: nat) -> Decoded<Seq<<B as DeepView>::V>> {
        spec_elems_from_bytes::<B>(b, N as nat, sw)
    }

    proof fn lemma_from_bytes_len(b: Seq<u8>, sw: nat) {
        lemma_elems_from_bytes_len::<B>(b, N as nat, sw);
    }

    proof fn lemma_prefix_tolerance(b: Seq<u8>, rest: Seq<u8>, sw: nat) {
        lemma_elems_prefix_tolerance::<B>(b, rest, N as nat, sw);
    }

    proof fn lemma_round_trip(v: Seq<<B as DeepView>::V>, sw: nat, rest: Seq<u8>) {
        let x = choose|x: [B; N]| #[trigger] view_of::<[B; N]>(x) == v;
        assert(v.len() == N);
        assert forall|i: int| 0 <= i < v.len() implies is_view::<B>(#[trigger] v[i]) by {
            assert(view_of::<B>(x@[i]) == v[i]);
        }
        lemma_elems_round_trip::<B>(v, sw, rest);
    }

    fn from_bytes<S: Size>(b: &mut &[u8]) -> (r: Result<[B; N], Error>) {
        proof {
            lemma_elems_from_bytes_len::<B>(b@, N as nat, S::width());
        }
        let v = read_elems::<B, S>(b, N)?;
        let a = array_from_vec::<B, N>(v);
        assert(a.deep_view() =~= v.deep_view());
        Ok(a)
    }

    fn into_bytes<S: Size>(&self, b: &mut Vec<u8>) -> (r: Result<(), Error>) {
        let s = self.as_slice();
        assert(s.deep_view() =~= self.deep_view());
        write_elems::<B, S>(s, b)
    }
}

impl<B: Serialize> Serialize for Option<B> {
    /// A presence flag encoded as a `bool`, then the value if there is one.
    open spec fn spec_into_bytes(v: Option<<B as DeepView>::V>, sw: nat) -> Encoded {
        match v {
            None => Ok(seq![0u8]),
            Some(x) => match B::spec_into_bytes(x, sw) {
                Ok(e) => Ok(seq![1u8] + e),
                Err((e, w)) => Err((e, seq![1u8] + w)),
            },
        }
    }

    open spec fn spec_from_bytes(b: Seq<u8>, sw: nat) -> Decoded<Option<<B as DeepView>::V>> {
        match <bool as Serialize>::spec_from_bytes(b, sw) {
            Ok((is_some, n)) => if is_some {
                match B::spec_from_bytes(b.skip(1), sw) {
                    Ok((x, m)) => Ok((Some(x), 1 + m)),
                    Err((e, m)) => Err((e, 1 + m)),
                }
            } else {
                Ok((None, 1))
            },
            Err(x) => Err(x),
        }
    }

    proof fn lemma_from_bytes_len(b: Seq<u8>, sw: nat) {
        B::lemma_from_bytes_len(b.skip(1), sw);
    }

    proof fn lemma_prefix_tolerance(b: Seq<u8>, rest: Seq<u8>, sw: nat) {
        assert((b + rest)[0] == b[0]);
        if b[0] == 1 {
            assert((b + rest).skip(1) =~= b.skip(1) + rest);
            B::lemma_prefix_tolerance(b.skip(1), rest, sw);
        }
    }

    proof fn lemma_round_trip(v: Option<<B as DeepView>::V>, sw: nat, rest: Seq<u8>) {
        match v {
            None => {
                assert((seq![0u8] + rest)[0] == 0);
            },
            Some(y) => {
                let x = choose|x: Option<B>| #[trigger] view_of::<Option<B>>(x) == v;
                assert(view_of::<B>(x->Some_0) == y);
                let e = B::spec_into_bytes(y, sw)->Ok_0;
                assert((seq![1u8] + e + rest)[0] == 1);
                assert((seq![1u8] + e + rest).skip(1) =~= e + rest);
                B::lemma_round_trip(y, sw, rest);
            },
        }
    }

    fn from_bytes<S: Size>(b: &mut &[u8]) -> (r: Result<Option<B>, Error>) {
        let ghost b0 = b@;
        let is_some = bool::from_bytes::<S>(b)?;
        if is_some {
            let x = B::from_bytes::<S>(b)?;
            Ok(Some(x))
        } else {
            Ok(None)
        }
    }

    fn into_bytes<S: Size>(&self, b: &mut Vec<u8>) -> (r: Result<(), Error>) {
        self.is_some().into_bytes::<S>(b)?;
        match self {
            Some(inner) => {
                let ghost e = B::spec_into_bytes(inner.deep_view(), S::width())->Ok_0;
                inner.into_bytes::<S>(b)?;
                assert(b@ =~= old(b)@ + (seq![1u8] + e));
            },
            None => {},
        }
        Ok(())
    }
}

impl<B: Serialize> Serialize for Box<B> {
    /// The boxed value's own encoding, with nothing added.
    open spec fn spec_into_bytes(v: <B as DeepView>::V, sw: nat) -> Encoded {
        B::spec_into_bytes(v, sw)
    }

    open spec fn spec_from_bytes(b: Seq<u8>, sw: nat) -> Decoded<<B as DeepView>::V> {
        B::spec_from_bytes(b, sw)
    }

    proof fn lemma_from_bytes_len(b: Seq<u8>, sw: nat) {
        B::lemma_from_bytes_len(b, sw);
    }

    proof fn lemma_prefix_tolerance(b: Seq<u8>, rest: Seq<u8>, sw: nat) {
        B::lemma_prefix_tolerance(b, rest, sw);
    }

    proof fn lemma_round_trip(v: <B as DeepView>::V, sw: nat, rest: Seq<u8>) {
        let x = choose|x: Box<B>| #[trigger] view_of::<Box<B>>(x) == v;
        assert(view_of::<B>(*x) == v);
        B::lemma_round_trip(v, sw, rest);
    }

    fn from_bytes<S: Size>(b: &mut &[u8]) -> (r: Result<Box<B>, Error>) {
        let x = B::from_bytes::<S>(b)?;
        Ok(Box::new(x))
    }

    fn into_bytes<S: Size>(&self, b: &mut Vec<u8>) -> (r: Result<(), Error>) {
        (**self).into_bytes::<S>(b)
    }
}

} // verus!
