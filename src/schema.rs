//! Method ids of an endpoint, allocated in declaration order.
use vstd::prelude::*;

verus! {

/// The ids of one method: its request id, and its response id if it has a response.
#[derive(Clone, Copy, PartialEq, Eq, Debug, Structural)]
pub struct MethodIds {
    pub request: u32,
    pub response: Option<u32>,
}

/// The ids of methods that have a response or not (`has_response`, in
/// declaration order), counting from `next`: a method with a response takes
/// `next` and `next + 1`, one without takes `next` alone.
pub open spec fn ids_from(has_response: Seq<bool>, next: nat) -> Seq<(nat, Option<nat>)>
    decreases has_response.len(),
{
    if has_response.len() == 0 {
        seq![]
    } else if has_response[0] {
        seq![(next, Some((next + 1) as nat))] + ids_from(has_response.drop_first(), next + 2)
    } else {
        seq![(next, None::<nat>)] + ids_from(has_response.drop_first(), next + 1)
    }
}

/// The ids of an endpoint's methods: allocation starts at 1.
pub open spec fn method_ids_spec(has_response: Seq<bool>) -> Seq<(nat, Option<nat>)> {
    ids_from(has_response, 1)
}

/// The number of ids that methods with or without a response take.
pub open spec fn ids_used(has_response: Seq<bool>) -> nat
    decreases has_response.len(),
{
    if has_response.len() == 0 {
        0
    } else {
        (if has_response[0] {
            2nat
        } else {
            1nat
        }) + ids_used(has_response.drop_first())
    }
}

pub open spec fn ids_view(ids: Seq<MethodIds>) -> Seq<(nat, Option<nat>)> {
    ids.map_values(
        |m: MethodIds|
            (
                m.request as nat,
                match m.response {
                    Some(r) => Some(r as nat),
                    None => None,
                },
            ),
    )
}

proof fn lemma_ids_from_split(h: Seq<bool>, i: int, next: nat)
    requires
        0 <= i <= h.len(),
    ensures
        ids_from(h, next) == ids_from(h.take(i), next) + ids_from(h.skip(i), next + ids_used(
            h.take(i),
        )),
    decreases i,
{
    if i == 0 {
        assert(h.take(0) =~= seq![]);
        assert(h.skip(0) =~= h);
        assert(seq![] + ids_from(h, next) =~= ids_from(h, next));
    } else {
        let t = h.drop_first();
        lemma_ids_from_split(t, i - 1, next + if h[0] {
            2nat
        } else {
            1nat
        });
        assert(h.take(i).drop_first() =~= t.take(i - 1));
        assert(h.skip(i) =~= t.skip(i - 1));
        assert(h.take(i)[0] == h[0]);
        if h[0] {
            assert(ids_from(h, next) =~= seq![(next, Some((next + 1) as nat))] + ids_from(t, next + 2));
        }
    }
}

proof fn lemma_ids_used_push(h: Seq<bool>, b: bool)
    ensures
        ids_used(h.push(b)) == ids_used(h) + if b {
            2nat
        } else {
            1nat
        },
    decreases h.len(),
{
    assert(h.push(b)[0] == if h.len() > 0 {
        h[0]
    } else {
        b
    });
    if h.len() > 0 {
        assert(h.push(b).drop_first() =~= h.drop_first().push(b));
        lemma_ids_used_push(h.drop_first(), b);
    } else {
        assert(h.push(b).drop_first() =~= Seq::<bool>::empty());
        assert(ids_used(Seq::<bool>::empty()) == 0);
    }
}

proof fn lemma_ids_used_bound(h: Seq<bool>)
    ensures
        ids_used(h) <= 2 * h.len(),
    decreases h.len(),
{
    if h.len() > 0 {
        lemma_ids_used_bound(h.drop_first());
    }
}

/// The request and response ids of each method, from whether it has a
/// response (declaration order).
pub fn method_ids(has_response: &[bool]) -> (r: Vec<MethodIds>)
    requires
        2 * has_response@.len() + 1 <= u32::MAX,
    ensures
        ids_view(r@) == method_ids_spec(has_response@),
{
    let mut r: Vec<MethodIds> = Vec::new();
    let mut next: u32 = 1;
    let mut i: usize = 0;
    let ghost h = has_response@;
    while i < has_response.len()
        invariant
            i <= h.len(),
            h == has_response@,
            2 * h.len() + 1 <= u32::MAX,
            next == 1 + ids_used(h.take(i as int)),
            ids_view(r@) == ids_from(h.take(i as int), 1),
        decreases h.len() - i,
    {
        proof {
            lemma_ids_used_bound(h.take(i as int));
            lemma_ids_used_push(h.take(i as int), h[i as int]);
            assert(h.take(i as int).push(h[i as int]) =~= h.take(i + 1));
            let hi = h.take(i + 1);
            lemma_ids_from_split(hi, i as int, 1);
            assert(hi.take(i as int) =~= h.take(i as int));
            assert(hi.skip(i as int) =~= seq![h[i as int]]);
            assert(seq![h[i as int]].drop_first() =~= Seq::<bool>::empty());
        }
        let ids = if has_response[i] {
            MethodIds { request: next, response: Some(next + 1) }
        } else {
            MethodIds { request: next, response: None }
        };
        let ghost before = r@;
        r.push(ids);
        proof {
            let one = seq![h[i as int]];
            assert(one.drop_first() =~= Seq::<bool>::empty());
            assert(ids_from(Seq::<bool>::empty(), next as nat + 2) == Seq::<(nat, Option<nat>)>::empty());
            assert(ids_from(Seq::<bool>::empty(), next as nat + 1) == Seq::<(nat, Option<nat>)>::empty());
            assert(ids_from(one, next as nat) =~= seq![ids_view(r@).last()]);
            assert(ids_view(r@) =~= ids_view(before) + ids_from(seq![h[i as int]], next as nat));
        }
        next = if has_response[i] {
            next + 2
        } else {
            next + 1
        };
        i = i + 1;
    }
    assert(h.take(i as int) =~= h);
    r
}

} // verus!
