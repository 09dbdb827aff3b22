//! Little-endian integers in byte strings.

use vstd::prelude::*;

verus! {

/// The integer that `s` holds, least significant byte first.
pub open spec fn le_value(s: Seq<u8>) -> nat
    decreases s.len(),
{
    if s.len() == 0 {
        0
    } else {
        s[0] as nat + 256 * le_value(s.drop_first())
    }
}

/// The `n` least significant bytes of `v`, least significant first.
pub open spec fn le_bytes(v: nat, n: nat) -> Seq<u8>
    decreases n,
{
    if n == 0 {
        seq![]
    } else {
        seq![(v % 256) as u8] + le_bytes(v / 256, (n - 1) as nat)
    }
}

/// 256 to the power of `n`.
pub open spec fn pow256(n: nat) -> nat
    decreases n,
{
    if n == 0 {
        1
    } else {
        256 * pow256((n - 1) as nat)
    }
}

pub proof fn lemma_pow256()
    ensures
        pow256(4) == 0x1_0000_0000,
        pow256(8) == 0x1_0000_0000_0000_0000,
{
    reveal_with_fuel(pow256, 9);
}

pub proof fn lemma_le_value(s: Seq<u8>)
    ensures
        le_value(s) < pow256(s.len()),
    decreases s.len(),
{
    if s.len() > 0 {
        lemma_le_value(s.drop_first());
    }
}

/// Byte strings of the same length that hold the same integer are the same.
pub proof fn lemma_le_same(a: Seq<u8>, b: Seq<u8>)
    requires
        a.len() == b.len(),
    ensures
        le_value(a) == le_value(b) ==> a == b,
    decreases a.len(),
{
    if a.len() > 0 && le_value(a) == le_value(b) {
        assert(a[0] == b[0]);
        lemma_le_same(a.drop_first(), b.drop_first());
        assert(a =~= seq![a[0]] + a.drop_first());
        assert(b =~= seq![b[0]] + b.drop_first());
    } else if a.len() == 0 {
        assert(a =~= b);
    }
}

pub proof fn lemma_le_len(v: nat, n: nat)
    ensures
        le_bytes(v, n).len() == n,
    decreases n,
{
    if n > 0 {
        lemma_le_len(v / 256, (n - 1) as nat);
    }
}

pub proof fn lemma_le_bytes(v: nat, n: nat)
    requires
        v < pow256(n),
    ensures
        le_bytes(v, n).len() == n,
        le_value(le_bytes(v, n)) == v,
    decreases n,
{
    if n > 0 {
        lemma_le_bytes(v / 256, (n - 1) as nat);
        assert(le_bytes(v, n).drop_first() =~= le_bytes(v / 256, (n - 1) as nat));
    }
}

/// Reads the `n` bytes of `data` at `at`.
pub fn read_le(data: &[u8], at: usize, n: usize) -> (v: u64)
    requires
        at + n <= data@.len(),
        n <= 8,
    ensures
        v == le_value(data@.subrange(at as int, at + n)),
        v < pow256(n as nat),
{
    let len = data.len();
    let mut v: u64 = 0;
    let mut k: usize = n;
    while k > 0
        invariant
            k <= n <= 8,
            len == data@.len(),
            at + n <= data@.len(),
            v == le_value(data@.subrange(at + k, at + n)),
        decreases k,
    {
        proof {
            let s = data@.subrange(at + k - 1, at + n);
            assert(s.drop_first() =~= data@.subrange(at + k, at + n));
            lemma_le_value(s);
            reveal_with_fuel(pow256, 9);
        }
        k = k - 1;
        v = v * 256 + data[at + k] as u64;
    }
    proof {
        lemma_le_value(data@.subrange(at as int, at + n));
    }
    v
}

/// Appends the `n` least significant bytes of `v` to `out`.
pub fn write_le(out: &mut Vec<u8>, v: u64, n: usize)
    ensures
        final(out)@ == old(out)@ + le_bytes(v as nat, n as nat),
{
    let mut left = v;
    let mut k: usize = 0;
    assert(out@ + le_bytes(left as nat, n as nat) =~= old(out)@ + le_bytes(v as nat, n as nat));
    while k < n
        invariant
            k <= n,
            out@ + le_bytes(left as nat, (n - k) as nat) == old(out)@ + le_bytes(
                v as nat,
                n as nat,
            ),
        decreases n - k,
    {
        let ghost before = out@;
        out.push((left % 256) as u8);
        proof {
            let rest = le_bytes((left / 256) as nat, (n - k - 1) as nat);
            assert(out@ + rest =~= before + (seq![(left % 256) as u8] + rest));
        }
        left = left / 256;
        k = k + 1;
    }
    assert(out@ + le_bytes(left as nat, 0) =~= out@);
}

} // verus!
