//! Tuples of up to four codable values: their fields one after the other.
use crate::codec::{Decoder, Encoder, FDsToSend};
use std::collections::VecDeque;
use vstd::prelude::*;

verus! {

impl<A: Encoder> Encoder for (A,) {
    open spec fn encodable(v: (A::V,)) -> bool {
        A::encodable(v.0)
    }

    open spec fn wire_bytes(v: (A::V,)) -> Seq<u8> {
        A::wire_bytes(v.0)
    }

    open spec fn wire_fds(v: (A::V,)) -> Seq<i32> {
        A::wire_fds(v.0)
    }

    fn encode(data: &(A,)) -> (r: Option<(Vec<u8>, FDsToSend)>) {
        let mut bytes: Vec<u8> = Vec::new();
        let mut fds = FDsToSend { fds: Vec::new() };
        match A::encode(&data.0) {
            Some((b, f)) => {
                let mut b = b;
                let mut f = f;
                bytes.append(&mut b);
                fds.fds.append(&mut f.fds);
            },
            None => {
                return None;
            },
        }
        proof {
            assert(bytes@ =~= A::wire_bytes(data.0.deep_view()));
            assert(fds.fds@ =~= A::wire_fds(data.0.deep_view()));
        }
        Some((bytes, fds))
    }
}

impl<A: Decoder> Decoder for (A,) {
    open spec fn parse(bytes: Seq<u8>, fds: Seq<i32>) -> Option<((A::V,), nat, nat)> {
        match A::parse(bytes, fds) {
            None => None,
            Some((x0, n0, k0)) => Some(((x0,), n0, k0)),
        }
    }

    proof fn lemma_parse_within(bytes: Seq<u8>, fds: Seq<i32>) {
        A::lemma_parse_within(bytes, fds);
    }

    proof fn lemma_round_trip(v: (A::V,), rest: Seq<u8>, fd_rest: Seq<i32>) {
        let b0 = rest;
        let f0 = fd_rest;
        assert(Self::wire_bytes(v) + rest =~= A::wire_bytes(v.0) + b0);
        assert(Self::wire_fds(v) + fd_rest =~= A::wire_fds(v.0) + f0);
        A::lemma_round_trip(v.0, b0, f0);
        assert((A::wire_bytes(v.0) + b0).skip(A::wire_bytes(v.0).len() as int) =~= b0);
        assert((A::wire_fds(v.0) + f0).skip(A::wire_fds(v.0).len() as int) =~= f0);
    }


    fn decode(it: &mut VecDeque<u8>, fds: &mut FDsToSend) -> (r: Option<(A,)>) {
        let ghost b0 = it@;
        let ghost f0 = fds.fds@;
        let ghost c0 = it@;
        let ghost g0 = fds.fds@;
        proof {
            A::lemma_parse_within(c0, g0);
        }
        let x0 = match A::decode(it, fds) {
            Some(x) => x,
            None => {
                return None;
            },
        };
        let ghost m0 = A::parse(c0, g0).unwrap().1;
        let ghost j0 = A::parse(c0, g0).unwrap().2;
        proof {
            assert(b0.skip((m0) as int) =~= it@);
            assert(f0.skip((j0) as int) =~= fds.fds@);
        }
        Some((x0,))
    }
}

impl<A: Encoder, B: Encoder> Encoder for (A, B) {
    open spec fn encodable(v: (A::V, B::V)) -> bool {
        A::encodable(v.0) && B::encodable(v.1)
    }

    open spec fn wire_bytes(v: (A::V, B::V)) -> Seq<u8> {
        A::wire_bytes(v.0) + B::wire_bytes(v.1)
    }

    open spec fn wire_fds(v: (A::V, B::V)) -> Seq<i32> {
        A::wire_fds(v.0) + B::wire_fds(v.1)
    }

    fn encode(data: &(A, B)) -> (r: Option<(Vec<u8>, FDsToSend)>) {
        let mut bytes: Vec<u8> = Vec::new();
        let mut fds = FDsToSend { fds: Vec::new() };
        match A::encode(&data.0) {
            Some((b, f)) => {
                let mut b = b;
                let mut f = f;
                bytes.append(&mut b);
                fds.fds.append(&mut f.fds);
            },
            None => {
                return None;
            },
        }
        match B::encode(&data.1) {
            Some((b, f)) => {
                let mut b = b;
                let mut f = f;
                bytes.append(&mut b);
                fds.fds.append(&mut f.fds);
            },
            None => {
                return None;
            },
        }
        proof {
            assert(bytes@ =~= A::wire_bytes(data.0.deep_view()) + B::wire_bytes(data.1.deep_view()));
            assert(fds.fds@ =~= A::wire_fds(data.0.deep_view()) + B::wire_fds(data.1.deep_view()));
        }
        Some((bytes, fds))
    }
}

impl<A: Decoder, B: Decoder> Decoder for (A, B) {
    open spec fn parse(bytes: Seq<u8>, fds: Seq<i32>) -> Option<((A::V, B::V), nat, nat)> {
        match A::parse(bytes, fds) {
            None => None,
            Some((x0, n0, k0)) => match B::parse(bytes.skip((n0) as int), fds.skip((k0) as int)) {
                None => None,
                Some((x1, n1, k1)) => Some(((x0, x1), n0 + n1, k0 + k1)),
            },
        }
    }

    proof fn lemma_parse_within(bytes: Seq<u8>, fds: Seq<i32>) {
        A::lemma_parse_within(bytes, fds);
        if let Some((x0, n0, k0)) = A::parse(bytes, fds) {
            B::lemma_parse_within(bytes.skip((n0) as int), fds.skip((k0) as int));
        }
    }

    proof fn lemma_round_trip(v: (A::V, B::V), rest: Seq<u8>, fd_rest: Seq<i32>) {
        let b0 = B::wire_bytes(v.1) + rest;
        let f0 = B::wire_fds(v.1) + fd_rest;
        let b1 = rest;
        let f1 = fd_rest;
        assert(Self::wire_bytes(v) + rest =~= A::wire_bytes(v.0) + b0);
        assert(Self::wire_fds(v) + fd_rest =~= A::wire_fds(v.0) + f0);
        A::lemma_round_trip(v.0, b0, f0);
        assert((A::wire_bytes(v.0) + b0).skip(A::wire_bytes(v.0).len() as int) =~= b0);
        assert((A::wire_fds(v.0) + f0).skip(A::wire_fds(v.0).len() as int) =~= f0);
        assert(b0 =~= B::wire_bytes(v.1) + b1);
        assert(f0 =~= B::wire_fds(v.1) + f1);
        B::lemma_round_trip(v.1, b1, f1);
        assert((B::wire_bytes(v.1) + b1).skip(B::wire_bytes(v.1).len() as int) =~= b1);
        assert((B::wire_fds(v.1) + f1).skip(B::wire_fds(v.1).len() as int) =~= f1);
    }


    fn decode(it: &mut VecDeque<u8>, fds: &mut FDsToSend) -> (r: Option<(A, B)>) {
        let ghost b0 = it@;
        let ghost f0 = fds.fds@;
        let ghost c0 = it@;
        let ghost g0 = fds.fds@;
        proof {
            A::lemma_parse_within(c0, g0);
        }
        let x0 = match A::decode(it, fds) {
            Some(x) => x,
            None => {
                return None;
            },
        };
        let ghost m0 = A::parse(c0, g0).unwrap().1;
        let ghost j0 = A::parse(c0, g0).unwrap().2;
        proof {
            assert(b0.skip((m0) as int) =~= it@);
            assert(f0.skip((j0) as int) =~= fds.fds@);
        }
        let ghost c1 = it@;
        let ghost g1 = fds.fds@;
        proof {
            B::lemma_parse_within(c1, g1);
        }
        let x1 = match B::decode(it, fds) {
            Some(x) => x,
            None => {
                return None;
            },
        };
        let ghost m1 = B::parse(c1, g1).unwrap().1;
        let ghost j1 = B::parse(c1, g1).unwrap().2;
        proof {
            assert(b0.skip((m0 + m1) as int) =~= it@);
            assert(f0.skip((j0 + j1) as int) =~= fds.fds@);
        }
        Some((x0, x1))
    }
}

impl<A: Encoder, B: Encoder, C: Encoder> Encoder for (A, B, C) {
    open spec fn encodable(v: (A::V, B::V, C::V)) -> bool {
        A::encodable(v.0) && B::encodable(v.1) && C::encodable(v.2)
    }

    open spec fn wire_bytes(v: (A::V, B::V, C::V)) -> Seq<u8> {
        A::wire_bytes(v.0) + B::wire_bytes(v.1) + C::wire_bytes(v.2)
    }

    open spec fn wire_fds(v: (A::V, B::V, C::V)) -> Seq<i32> {
        A::wire_fds(v.0) + B::wire_fds(v.1) + C::wire_fds(v.2)
    }

    fn encode(data: &(A, B, C)) -> (r: Option<(Vec<u8>, FDsToSend)>) {
        let mut bytes: Vec<u8> = Vec::new();
        let mut fds = FDsToSend { fds: Vec::new() };
        match A::encode(&data.0) {
            Some((b, f)) => {
                let mut b = b;
                let mut f = f;
                bytes.append(&mut b);
                fds.fds.append(&mut f.fds);
            },
            None => {
                return None;
            },
        }
        match B::encode(&data.1) {
            Some((b, f)) => {
                let mut b = b;
                let mut f = f;
                bytes.append(&mut b);
                fds.fds.append(&mut f.fds);
            },
            None => {
                return None;
            },
        }
        match C::encode(&data.2) {
            Some((b, f)) => {
                let mut b = b;
                let mut f = f;
                bytes.append(&mut b);
                fds.fds.append(&mut f.fds);
            },
            None => {
                return None;
            },
        }
        proof {
            assert(bytes@ =~= A::wire_bytes(data.0.deep_view()) + B::wire_bytes(data.1.deep_view()) + C::wire_bytes(data.2.deep_view()));
            assert(fds.fds@ =~= A::wire_fds(data.0.deep_view()) + B::wire_fds(data.1.deep_view()) + C::wire_fds(data.2.deep_view()));
        }
        Some((bytes, fds))
    }
}

impl<A: Decoder, B: Decoder, C: Decoder> Decoder for (A, B, C) {
    open spec fn parse(bytes: Seq<u8>, fds: Seq<i32>) -> Option<((A::V, B::V, C::V), nat, nat)> {
        match A::parse(bytes, fds) {
            None => None,
            Some((x0, n0, k0)) => match B::parse(bytes.skip((n0) as int), fds.skip((k0) as int)) {
                None => None,
                Some((x1, n1, k1)) => match C::parse(bytes.skip((n0 + n1) as int), fds.skip((k0 + k1) as int)) {
                    None => None,
                    Some((x2, n2, k2)) => Some(((x0, x1, x2), n0 + n1 + n2, k0 + k1 + k2)),
                },
            },
        }
    }

    proof fn lemma_parse_within(bytes: Seq<u8>, fds: Seq<i32>) {
        A::lemma_parse_within(bytes, fds);
        if let Some((x0, n0, k0)) = A::parse(bytes, fds) {
            B::lemma_parse_within(bytes.skip((n0) as int), fds.skip((k0) as int));
            if let Some((x1, n1, k1)) = B::parse(bytes.skip((n0) as int), fds.skip((k0) as int)) {
                C::lemma_parse_within(bytes.skip((n0 + n1) as int), fds.skip((k0 + k1) as int));
            }
        }
    }

    proof fn lemma_round_trip(v: (A::V, B::V, C::V), rest: Seq<u8>, fd_rest: Seq<i32>) {
        let b0 = B::wire_bytes(v.1) + C::wire_bytes(v.2) + rest;
        let f0 = B::wire_fds(v.1) + C::wire_fds(v.2) + fd_rest;
        let b1 = C::wire_bytes(v.2) + rest;
        let f1 = C::wire_fds(v.2) + fd_rest;
        let b2 = rest;
        let f2 = fd_rest;
        assert(Self::wire_bytes(v) + rest =~= A::wire_bytes(v.0) + b0);
        assert(Self::wire_fds(v) + fd_rest =~= A::wire_fds(v.0) + f0);
        A::lemma_round_trip(v.0, b0, f0);
        assert((A::wire_bytes(v.0) + b0).skip(A::wire_bytes(v.0).len() as int) =~= b0);
        assert((A::wire_fds(v.0) + f0).skip(A::wire_fds(v.0).len() as int) =~= f0);
        assert(b0 =~= B::wire_bytes(v.1) + b1);
        assert(f0 =~= B::wire_fds(v.1) + f1);
        B::lemma_round_trip(v.1, b1, f1);
        assert((B::wire_bytes(v.1) + b1).skip(B::wire_bytes(v.1).len() as int) =~= b1);
        assert((B::wire_fds(v.1) + f1).skip(B::wire_fds(v.1).len() as int) =~= f1);
        assert((Self::wire_bytes(v) + rest).skip((A::wire_bytes(v.0).len() + B::wire_bytes(v.1).len()) as int) =~= b1);
        assert((Self::wire_fds(v) + fd_rest).skip((A::wire_fds(v.0).len() + B::wire_fds(v.1).len()) as int) =~= f1);
        assert(b1 =~= C::wire_bytes(v.2) + b2);
        assert(f1 =~= C::wire_fds(v.2) + f2);
        C::lemma_round_trip(v.2, b2, f2);
        assert((C::wire_bytes(v.2) + b2).skip(C::wire_bytes(v.2).len() as int) =~= b2);
        assert((C::wire_fds(v.2) + f2).skip(C::wire_fds(v.2).len() as int) =~= f2);
        assert((Self::wire_bytes(v) + rest).skip((A::wire_bytes(v.0).len() + B::wire_bytes(v.1).len() + C::wire_bytes(v.2).len()) as int) =~= b2);
        assert((Self::wire_fds(v) + fd_rest).skip((A::wire_fds(v.0).len() + B::wire_fds(v.1).len() + C::wire_fds(v.2).len()) as int) =~= f2);
    }


    fn decode(it: &mut VecDeque<u8>, fds: &mut FDsToSend) -> (r: Option<(A, B, C)>) {
        let ghost b0 = it@;
        let ghost f0 = fds.fds@;
        let ghost c0 = it@;
        let ghost g0 = fds.fds@;
        proof {
            A::lemma_parse_within(c0, g0);
        }
        let x0 = match A::decode(it, fds) {
            Some(x) => x,
            None => {
                return None;
            },
        };
        let ghost m0 = A::parse(c0, g0).unwrap().1;
        let ghost j0 = A::parse(c0, g0).unwrap().2;
        proof {
            assert(b0.skip((m0) as int) =~= it@);
            assert(f0.skip((j0) as int) =~= fds.fds@);
        }
        let ghost c1 = it@;
        let ghost g1 = fds.fds@;
        proof {
            B::lemma_parse_within(c1, g1);
        }
        let x1 = match B::decode(it, fds) {
            Some(x) => x,
            None => {
                return None;
            },
        };
        let ghost m1 = B::parse(c1, g1).unwrap().1;
        let ghost j1 = B::parse(c1, g1).unwrap().2;
        proof {
            assert(b0.skip((m0 + m1) as int) =~= it@);
            assert(f0.skip((j0 + j1) as int) =~= fds.fds@);
        }
        let ghost c2 = it@;
        let ghost g2 = fds.fds@;
        proof {
            C::lemma_parse_within(c2, g2);
        }
        let x2 = match C::decode(it, fds) {
            Some(x) => x,
            None => {
                return None;
            },
        };
        let ghost m2 = C::parse(c2, g2).unwrap().1;
        let ghost j2 = C::parse(c2, g2).unwrap().2;
        proof {
            assert(b0.skip((m0 + m1 + m2) as int) =~= it@);
            assert(f0.skip((j0 + j1 + j2) as int) =~= fds.fds@);
        }
        Some((x0, x1, x2))
    }
}

impl<A: Encoder, B: Encoder, C: Encoder, D: Encoder> Encoder for (A, B, C, D) {
    open spec fn encodable(v: (A::V, B::V, C::V, D::V)) -> bool {
        A::encodable(v.0) && B::encodable(v.1) && C::encodable(v.2) && D::encodable(v.3)
    }

    open spec fn wire_bytes(v: (A::V, B::V, C::V, D::V)) -> Seq<u8> {
        A::wire_bytes(v.0) + B::wire_bytes(v.1) + C::wire_bytes(v.2) + D::wire_bytes(v.3)
    }

    open spec fn wire_fds(v: (A::V, B::V, C::V, D::V)) -> Seq<i32> {
        A::wire_fds(v.0) + B::wire_fds(v.1) + C::wire_fds(v.2) + D::wire_fds(v.3)
    }

    fn encode(data: &(A, B, C, D)) -> (r: Option<(Vec<u8>, FDsToSend)>) {
        let mut bytes: Vec<u8> = Vec::new();
        let mut fds = FDsToSend { fds: Vec::new() };
        match A::encode(&data.0) {
            Some((b, f)) => {
                let mut b = b;
                let mut f = f;
                bytes.append(&mut b);
                fds.fds.append(&mut f.fds);
            },
            None => {
                return None;
            },
        }
        match B::encode(&data.1) {
            Some((b, f)) => {
                let mut b = b;
                let mut f = f;
                bytes.append(&mut b);
                fds.fds.append(&mut f.fds);
            },
            None => {
                return None;
            },
        }
        match C::encode(&data.2) {
            Some((b, f)) => {
                let mut b = b;
                let mut f = f;
                bytes.append(&mut b);
                fds.fds.append(&mut f.fds);
            },
            None => {
                return None;
            },
        }
        match D::encode(&data.3) {
            Some((b, f)) => {
                let mut b = b;
                let mut f = f;
                bytes.append(&mut b);
                fds.fds.append(&mut f.fds);
            },
            None => {
                return None;
            },
        }
        proof {
            assert(bytes@ =~= A::wire_bytes(data.0.deep_view()) + B::wire_bytes(data.1.deep_view()) + C::wire_bytes(data.2.deep_view()) + D::wire_bytes(data.3.deep_view()));
            assert(fds.fds@ =~= A::wire_fds(data.0.deep_view()) + B::wire_fds(data.1.deep_view()) + C::wire_fds(data.2.deep_view()) + D::wire_fds(data.3.deep_view()));
        }
        Some((bytes, fds))
    }
}

impl<A: Decoder, B: Decoder, C: Decoder, D: Decoder> Decoder for (A, B, C, D) {
    open spec fn parse(bytes: Seq<u8>, fds: Seq<i32>) -> Option<((A::V, B::V, C::V, D::V), nat, nat)> {
        match A::parse(bytes, fds) {
            None => None,
            Some((x0, n0, k0)) => match B::parse(bytes.skip((n0) as int), fds.skip((k0) as int)) {
                None => None,
                Some((x1, n1, k1)) => match C::parse(bytes.skip((n0 + n1) as int), fds.skip((k0 + k1) as int)) {
                    None => None,
                    Some((x2, n2, k2)) => match D::parse(bytes.skip((n0 + n1 + n2) as int), fds.skip((k0 + k1 + k2) as int)) {
                        None => None,
                        Some((x3, n3, k3)) => Some(((x0, x1, x2, x3), n0 + n1 + n2 + n3, k0 + k1 + k2 + k3)),
                    },
                },
            },
        }
    }

    proof fn lemma_parse_within(bytes: Seq<u8>, fds: Seq<i32>) {
        A::lemma_parse_within(bytes, fds);
        if let Some((x0, n0, k0)) = A::parse(bytes, fds) {
            B::lemma_parse_within(bytes.skip((n0) as int), fds.skip((k0) as int));
            if let Some((x1, n1, k1)) = B::parse(bytes.skip((n0) as int), fds.skip((k0) as int)) {
                C::lemma_parse_within(bytes.skip((n0 + n1) as int), fds.skip((k0 + k1) as int));
                if let Some((x2, n2, k2)) = C::parse(bytes.skip((n0 + n1) as int), fds.skip((k0 + k1) as int)) {
                    D::lemma_parse_within(bytes.skip((n0 + n1 + n2) as int), fds.skip((k0 + k1 + k2) as int));
                }
            }
        }
    }

    proof fn lemma_round_trip(v: (A::V, B::V, C::V, D::V), rest: Seq<u8>, fd_rest: Seq<i32>) {
        let b0 = B::wire_bytes(v.1) + C::wire_bytes(v.2) + D::wire_bytes(v.3) + rest;
        let f0 = B::wire_fds(v.1) + C::wire_fds(v.2) + D::wire_fds(v.3) + fd_rest;
        let b1 = C::wire_bytes(v.2) + D::wire_bytes(v.3) + rest;
        let f1 = C::wire_fds(v.2) + D::wire_fds(v.3) + fd_rest;
        let b2 = D::wire_bytes(v.3) + rest;
        let f2 = D::wire_fds(v.3) + fd_rest;
        let b3 = rest;
        let f3 = fd_rest;
        assert(Self::wire_bytes(v) + rest =~= A::wire_bytes(v.0) + b0);
        assert(Self::wire_fds(v) + fd_rest =~= A::wire_fds(v.0) + f0);
        A::lemma_round_trip(v.0, b0, f0);
        assert((A::wire_bytes(v.0) + b0).skip(A::wire_bytes(v.0).len() as int) =~= b0);
        assert((A::wire_fds(v.0) + f0).skip(A::wire_fds(v.0).len() as int) =~= f0);
        assert(b0 =~= B::wire_bytes(v.1) + b1);
        assert(f0 =~= B::wire_fds(v.1) + f1);
        B::lemma_round_trip(v.1, b1, f1);
        assert((B::wire_bytes(v.1) + b1).skip(B::wire_bytes(v.1).len() as int) =~= b1);
        assert((B::wire_fds(v.1) + f1).skip(B::wire_fds(v.1).len() as int) =~= f1);
        assert((Self::wire_bytes(v) + rest).skip((A::wire_bytes(v.0).len() + B::wire_bytes(v.1).len()) as int) =~= b1);
        assert((Self::wire_fds(v) + fd_rest).skip((A::wire_fds(v.0).len() + B::wire_fds(v.1).len()) as int) =~= f1);
        assert(b1 =~= C::wire_bytes(v.2) + b2);
        assert(f1 =~= C::wire_fds(v.2) + f2);
        C::lemma_round_trip(v.2, b2, f2);
        assert((C::wire_bytes(v.2) + b2).skip(C::wire_bytes(v.2).len() as int) =~= b2);
        assert((C::wire_fds(v.2) + f2).skip(C::wire_fds(v.2).len() as int) =~= f2);
        assert((Self::wire_bytes(v) + rest).skip((A::wire_bytes(v.0).len() + B::wire_bytes(v.1).len() + C::wire_bytes(v.2).len()) as int) =~= b2);
        assert((Self::wire_fds(v) + fd_rest).skip((A::wire_fds(v.0).len() + B::wire_fds(v.1).len() + C::wire_fds(v.2).len()) as int) =~= f2);
        assert(b2 =~= D::wire_bytes(v.3) + b3);
        assert(f2 =~= D::wire_fds(v.3) + f3);
        D::lemma_round_trip(v.3, b3, f3);
        assert((D::wire_bytes(v.3) + b3).skip(D::wire_bytes(v.3).len() as int) =~= b3);
        assert((D::wire_fds(v.3) + f3).skip(D::wire_fds(v.3).len() as int) =~= f3);
        assert((Self::wire_bytes(v) + rest).skip((A::wire_bytes(v.0).len() + B::wire_bytes(v.1).len() + C::wire_bytes(v.2).len() + D::wire_bytes(v.3).len()) as int) =~= b3);
        assert((Self::wire_fds(v) + fd_rest).skip((A::wire_fds(v.0).len() + B::wire_fds(v.1).len() + C::wire_fds(v.2).len() + D::wire_fds(v.3).len()) as int) =~= f3);
    }


    fn decode(it: &mut VecDeque<u8>, fds: &mut FDsToSend) -> (r: Option<(A, B, C, D)>) {
        let ghost b0 = it@;
        let ghost f0 = fds.fds@;
        let ghost c0 = it@;
        let ghost g0 = fds.fds@;
        proof {
            A::lemma_parse_within(c0, g0);
        }
        let x0 = match A::decode(it, fds) {
            Some(x) => x,
            None => {
                return None;
            },
        };
        let ghost m0 = A::parse(c0, g0).unwrap().1;
        let ghost j0 = A::parse(c0, g0).unwrap().2;
        proof {
            assert(b0.skip((m0) as int) =~= it@);
            assert(f0.skip((j0) as int) =~= fds.fds@);
        }
        let ghost c1 = it@;
        let ghost g1 = fds.fds@;
        proof {
            B::lemma_parse_within(c1, g1);
        }
        let x1 = match B::decode(it, fds) {
            Some(x) => x,
            None => {
                return None;
            },
        };
        let ghost m1 = B::parse(c1, g1).unwrap().1;
        let ghost j1 = B::parse(c1, g1).unwrap().2;
        proof {
            assert(b0.skip((m0 + m1) as int) =~= it@);
            assert(f0.skip((j0 + j1) as int) =~= fds.fds@);
        }
        let ghost c2 = it@;
        let ghost g2 = fds.fds@;
        proof {
            C::lemma_parse_within(c2, g2);
        }
        let x2 = match C::decode(it, fds) {
            Some(x) => x,
            None => {
                return None;
            },
        };
        let ghost m2 = C::parse(c2, g2).unwrap().1;
        let ghost j2 = C::parse(c2, g2).unwrap().2;
        proof {
            assert(b0.skip((m0 + m1 + m2) as int) =~= it@);
            assert(f0.skip((j0 + j1 + j2) as int) =~= fds.fds@);
        }
        let ghost c3 = it@;
        let ghost g3 = fds.fds@;
        proof {
            D::lemma_parse_within(c3, g3);
        }
        let x3 = match D::decode(it, fds) {
            Some(x) => x,
            None => {
                return None;
            },
        };
        let ghost m3 = D::parse(c3, g3).unwrap().1;
        let ghost j3 = D::parse(c3, g3).unwrap().2;
        proof {
            assert(b0.skip((m0 + m1 + m2 + m3) as int) =~= it@);
            assert(f0.skip((j0 + j1 + j2 + j3) as int) =~= fds.fds@);
        }
        Some((x0, x1, x2, x3))
    }
}

} // verus!
