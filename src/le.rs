//! Fixed-width little-endian integers, the base of every field on the wire.
use vstd::prelude::*;

verus! {

/// `256` raised to `n`.
pub open spec fn pow256(n: nat) -> nat
    decreases n,
{
    if n == 0 {
        1
    } else {
        256 * pow256((n - 1) as nat)
    }
}

/// The number that the bytes `b` spell out, least significant byte first.
pub open spec fn le_value(b: Seq<u8>) -> nat
    decreases b.len(),
{
    if b.len() == 0 {
        0
    } else {
        b[0] as nat + 256 * le_value(b.drop_first())
    }
}

/// The `n` bytes that spell out `v` (taken modulo `256^n`), least significant first.
pub open spec fn le_bytes(v: nat, n: nat) -> Seq<u8>
    decreases n,
{
    if n == 0 {
        seq![]
    } else {
        seq![(v % 256) as u8] + le_bytes(v / 256, (n - 1) as nat)
    }
}

pub proof fn lemma_pow256_positive(n: nat)
    ensures
        pow256(n) >= 1,
    decreases n,
{
    if n > 0 {
        lemma_pow256_positive((n - 1) as nat);
    }
}

pub proof fn lemma_le_bytes_len(v: nat, n: nat)
    ensures
        le_bytes(v, n).len() == n,
    decreases n,
{
    if n > 0 {
        lemma_le_bytes_len(v / 256, (n - 1) as nat);
    }
}

/// Reading back the bytes of a value that fits gives the value.
pub proof fn lemma_le_round_trip(v: nat, n: nat)
    requires
        v < pow256(n),
    ensures
        le_value(le_bytes(v, n)) == v,
        le_bytes(v, n).len() == n,
    decreases n,
{
    lemma_le_bytes_len(v, n);
    if n > 0 {
        let m = pow256((n - 1) as nat);
        assert(v / 256 < m) by (nonlinear_arith)
            requires
                v < 256 * m,
        ;
        lemma_le_round_trip(v / 256, (n - 1) as nat);
        let b = le_bytes(v, n);
        assert(b.drop_first() =~= le_bytes(v / 256, (n - 1) as nat));
        assert(v == v % 256 + 256 * (v / 256)) by (nonlinear_arith);
    }
}

/// A value read from `n` bytes is below `256^n`.
pub proof fn lemma_le_value_bound(b: Seq<u8>)
    ensures
        le_value(b) < pow256(b.len()),
    decreases b.len(),
{
    if b.len() > 0 {
        lemma_le_value_bound(b.drop_first());
        let x = le_value(b.drop_first());
        let m = pow256((b.len() - 1) as nat);
        let d = b[0] as nat;
        assert(d + 256 * x < 256 * m) by (nonlinear_arith)
            requires
                x < m,
                d < 256,
        ;
    }
}

pub proof fn lemma_pow256_4_8()
    ensures
        pow256(4) == 0x1_0000_0000,
        pow256(8) == 0x1_0000_0000_0000_0000,
{
    reveal_with_fuel(pow256, 9);
}

/// Appends the `n` low-order bytes of `v`, least significant first.
pub fn push_le(out: &mut Vec<u8>, v: u64, n: usize)
    ensures
        final(out)@ == old(out)@ + le_bytes(v as nat, n as nat),
{
    let mut x: u64 = v;
    let mut i: usize = 0;
    while i < n
        invariant
            i <= n,
            old(out)@ + le_bytes(v as nat, n as nat) == out@ + le_bytes(x as nat, (n - i) as nat),
        decreases n - i,
    {
        let ghost before = out@;
        out.push((x % 256) as u8);
        assert(before + le_bytes(x as nat, (n - i) as nat) =~= out@ + le_bytes(
            (x / 256) as nat,
            (n - i - 1) as nat,
        ));
        x = x / 256;
        i = i + 1;
    }
    assert(le_bytes(x as nat, 0) =~= seq![]);
    assert(out@ + seq![] =~= out@);
}

/// Removes `n` bytes from the front of `it` and reads them as a little-endian number;
/// `None` when fewer than `n` bytes are there.
pub fn pop_le(it: &mut std::collections::VecDeque<u8>, n: usize) -> (r: Option<u64>)
    requires
        n <= 8,
    ensures
        old(it)@.len() < n ==> r is None,
        old(it)@.len() >= n ==> r == Some(le_value(old(it)@.take(n as int)) as u64)
            && final(it)@ == old(it)@.skip(n as int),
{
    if it.len() < n {
        return None;
    }
    let mut taken: Vec<u8> = Vec::new();
    let mut i: usize = 0;
    while i < n
        invariant
            i <= n,
            n <= old(it)@.len(),
            taken@ == old(it)@.take(i as int),
            it@ == old(it)@.skip(i as int),
        decreases n - i,
    {
        let b = it.pop_front();
        assert(b == Some(old(it)@[i as int]));
        taken.push(b.unwrap());
        i = i + 1;
        assert(taken@ =~= old(it)@.take(i as int));
        assert(it@ =~= old(it)@.skip(i as int));
    }
    let ghost bytes = taken@;
    let mut acc: u64 = 0;
    let mut j: usize = n;
    proof {
        assert(bytes.subrange(n as int, n as int) =~= seq![]);
        lemma_pow256_4_8();
    }
    while j > 0
        invariant
            j <= n,
            n <= 8,
            taken@ == bytes,
            bytes.len() == n,
            pow256(8) == 0x1_0000_0000_0000_0000,
            acc as nat == le_value(bytes.subrange(j as int, n as int)),
        decreases j,
    {
        let ghost tail = bytes.subrange(j as int, n as int);
        let ghost ext = bytes.subrange(j - 1, n as int);
        assert(ext.drop_first() =~= tail);
        proof {
            lemma_le_value_bound(ext);
            lemma_pow256_mono(ext.len(), 8);
        }
        acc = taken[j - 1] as u64 + 256 * acc;
        j = j - 1;
    }
    assert(bytes.subrange(0, n as int) =~= bytes);
    Some(acc)
}

pub proof fn lemma_pow256_mono(a: nat, b: nat)
    requires
        a <= b,
    ensures
        pow256(a) <= pow256(b),
    decreases b,
{
    if a < b {
        lemma_pow256_mono(a, (b - 1) as nat);
        lemma_pow256_positive((b - 1) as nat);
    }
}

} // verus!
