//! Byte strings read as big-endian integers.

use vstd::arithmetic::div_mod::lemma_basic_div;
use vstd::arithmetic::power2::{
    lemma2_to64, lemma_pow2_adds, lemma_pow2_pos, lemma_pow2_strictly_increases, pow2,
};
use vstd::prelude::*;

verus! {

/// The byte at `i`, zero outside the string.
pub open spec fn byte_at(data: Seq<u8>, i: int) -> int {
    if 0 <= i < data.len() {
        data[i] as int
    } else {
        0
    }
}

/// The big-endian value of the first `m` bytes, the string being extended
/// with zero bytes where it is shorter than that.
pub open spec fn head(data: Seq<u8>, m: nat) -> int
    decreases m,
{
    if m == 0 {
        0
    } else {
        head(data, (m - 1) as nat) * 256 + byte_at(data, m - 1)
    }
}

/// The big-endian value of the whole string.
pub open spec fn whole(data: Seq<u8>) -> int {
    head(data, data.len())
}

/// Eight more bits multiply a power of two by 256.
pub proof fn lemma_pow2_byte(n: nat)
    ensures
        pow2(8 * (n + 1)) == pow2(8 * n) * 256,
        pow2(8 * n) > 0,
{
    lemma2_to64();
    lemma_pow2_pos(8 * n);
    lemma_pow2_adds(8 * n, 8);
}

/// The first `m` bytes are worth less than `256^m`.
pub proof fn lemma_head_bound(data: Seq<u8>, m: nat)
    ensures
        0 <= head(data, m) < pow2(8 * m),
    decreases m,
{
    if m == 0 {
        lemma2_to64();
    } else {
        lemma_head_bound(data, (m - 1) as nat);
        lemma_pow2_byte((m - 1) as nat);
    }
}

/// `head` depends on the first `m` bytes alone.
pub proof fn lemma_head_agree(a: Seq<u8>, b: Seq<u8>, m: nat)
    requires
        forall|i: int| 0 <= i < m ==> byte_at(a, i) == byte_at(b, i),
    ensures
        head(a, m) == head(b, m),
    decreases m,
{
    if m > 0 {
        lemma_head_agree(a, b, (m - 1) as nat);
        assert(byte_at(a, m - 1) == byte_at(b, m - 1));
    }
}

/// The first `m + j` bytes are the first `m`, shifted, plus `j` more.
pub proof fn lemma_head_extend(data: Seq<u8>, m: nat, j: nat)
    ensures
        head(data, m) * pow2(8 * j) <= head(data, m + j),
        head(data, m + j) < (head(data, m) + 1) * pow2(8 * j),
    decreases j,
{
    if j == 0 {
        lemma2_to64();
        assert(pow2(8 * j) == 1);
        let h = head(data, m);
        let p = pow2(8 * j) as int;
        assert(h * p == h && (h + 1) * p == h + 1) by (nonlinear_arith)
            requires
                p == 1,
        ;
    } else {
        let k = (j - 1) as nat;
        lemma_head_extend(data, m, k);
        lemma_pow2_byte(k);
        let h = head(data, m);
        let p = pow2(8 * k) as int;
        assert(head(data, m + j) == head(data, m + k) * 256 + byte_at(data, m + j - 1));
        assert((h * p) * 256 == h * (p * 256)) by (nonlinear_arith);
        assert(((h + 1) * p) * 256 == (h + 1) * (p * 256)) by (nonlinear_arith);
    }
}

/// Appending one byte to a string.
pub proof fn lemma_whole_push(data: Seq<u8>, b: u8)
    ensures
        whole(data.push(b)) == whole(data) * 256 + b,
{
    lemma_head_agree(data.push(b), data, data.len());
}

/// Dropping whole bytes from the end divides by powers of 256.
pub proof fn lemma_head_drop(data: Seq<u8>, j: nat)
    ensures
        whole(data) / pow2(8 * j) as int == if j <= data.len() {
            head(data, (data.len() - j) as nat)
        } else {
            0
        },
    decreases j,
{
    let w = whole(data);
    lemma_head_bound(data, data.len());
    lemma_pow2_pos(8 * j);
    if j <= data.len() {
        let m = (data.len() - j) as nat;
        let h = head(data, m);
        let p = pow2(8 * j) as int;
        lemma_head_extend(data, m, j);
        assert(w / p == h) by (nonlinear_arith)
            requires
                p > 0,
                h * p <= w,
                w < (h + 1) * p,
        ;
    } else {
        lemma_pow2_strictly_increases(8 * data.len(), 8 * j);
        lemma_basic_div(w, pow2(8 * j) as int);
    }
}

/// The byte `j` places before the end, zero-extended to the front, read off
/// the value of the whole string.
pub proof fn lemma_byte_from_end(data: Seq<u8>, j: nat)
    ensures
        (whole(data) / pow2(8 * j) as int) % 256 == byte_at(data, data.len() - 1 - j),
{
    lemma_head_drop(data, j);
    if j < data.len() {
        let m = (data.len() - j) as nat;
        assert(head(data, m) == head(data, (m - 1) as nat) * 256 + byte_at(data, m - 1));
    }
}

/// The value of a byte string with the least significant byte first.
pub open spec fn tail_value(tail: Seq<u8>) -> int
    decreases tail.len(),
{
    if tail.len() == 0 {
        0
    } else {
        tail_value(tail.drop_last()) + tail.last() * pow2(8 * (tail.len() - 1) as nat)
    }
}

/// The bytes at the end of a string, last byte first, are the low part of its
/// big-endian value.
pub proof fn lemma_tail_value(data: Seq<u8>, tail: Seq<u8>)
    requires
        tail.len() <= data.len(),
        forall|j: int| 0 <= j < tail.len() ==> data[data.len() - 1 - j] == tail[j],
    ensures
        whole(data) == head(data, (data.len() - tail.len()) as nat) * pow2(8 * tail.len())
            + tail_value(tail),
        0 <= tail_value(tail) < pow2(8 * tail.len()),
    decreases tail.len(),
{
    lemma2_to64();
    if tail.len() > 0 {
        let rest = tail.drop_last();
        lemma_tail_value(data, rest);
        lemma_pow2_byte(rest.len());
        let p = pow2(8 * rest.len()) as int;
        let m = (data.len() - tail.len()) as nat;
        assert(data[data.len() - 1 - (tail.len() - 1)] == tail[tail.len() - 1]);
        assert(head(data, m + 1) == head(data, m) * 256 + tail.last());
        let h = head(data, m);
        let t = tail.last() as int;
        assert((h * 256 + t) * p == h * (p * 256) + t * p) by (nonlinear_arith);
        assert(0 <= t * p <= 255 * p) by (nonlinear_arith)
            requires
                0 <= t <= 255,
                p > 0,
        ;
    } else {
        let h = whole(data);
        let p = pow2(8 * tail.len()) as int;
        assert(h * p == h) by (nonlinear_arith)
            requires
                p == 1,
        ;
    }
}

/// A string of `n` bytes 255 is worth `256^n - 1`, and adding one to it after
/// a smaller byte carries into that byte.
pub proof fn lemma_carry(front: Seq<u8>, last: u8, n: nat)
    requires
        last < 255,
    ensures
        whole(front.push(last) + Seq::new(n, |i: int| 255u8)) + 1 == whole(
            front.push((last + 1) as u8) + Seq::new(n, |i: int| 0u8),
        ),
    decreases n,
{
    let a = front.push(last);
    let b = front.push((last + 1) as u8);
    let ones = Seq::new(n, |i: int| 255u8);
    let zeros = Seq::new(n, |i: int| 0u8);
    if n == 0 {
        assert(a + ones =~= a);
        assert(b + zeros =~= b);
        lemma_whole_push(front, last);
        lemma_whole_push(front, (last + 1) as u8);
    } else {
        let m = (n - 1) as nat;
        lemma_carry(front, last, m);
        let ones1 = Seq::new(m, |i: int| 255u8);
        let zeros1 = Seq::new(m, |i: int| 0u8);
        assert(a + ones =~= (a + ones1).push(255u8));
        assert(b + zeros =~= (b + zeros1).push(0u8));
        lemma_whole_push(a + ones1, 255u8);
        lemma_whole_push(b + zeros1, 0u8);
    }
}

/// Zero bytes after the first `m` only shift the value.
pub proof fn lemma_head_zeros(data: Seq<u8>, m: nat, j: nat)
    requires
        forall|i: int| m <= i < m + j ==> byte_at(data, i) == 0,
    ensures
        head(data, m + j) == head(data, m) * pow2(8 * j),
    decreases j,
{
    let h = head(data, m);
    if j == 0 {
        lemma2_to64();
        let p = pow2(8 * j) as int;
        assert(h * p == h) by (nonlinear_arith)
            requires
                p == 1,
        ;
    } else {
        let k = (j - 1) as nat;
        lemma_head_zeros(data, m, k);
        lemma_pow2_byte(k);
        let p = pow2(8 * k) as int;
        assert(byte_at(data, m + j - 1) == 0);
        assert(head(data, m + j) == head(data, m + k) * 256);
        assert((h * p) * 256 == h * (p * 256)) by (nonlinear_arith);
    }
}

/// Raising one byte raises the value by a multiple of that byte's place.
pub proof fn lemma_head_raise(data: Seq<u8>, i: int, b: u8, m: nat)
    requires
        0 <= i < m <= data.len(),
    ensures
        head(data.update(i, b), m) == head(data, m) + (b - data[i]) * pow2(8 * (m - 1 - i) as nat),
    decreases m,
{
    let next = data.update(i, b);
    let d = b - data[i];
    if m == i + 1 {
        lemma2_to64();
        lemma_head_agree(next, data, i as nat);
        let p = pow2(8 * (m - 1 - i) as nat) as int;
        assert(d * p == d) by (nonlinear_arith)
            requires
                p == 1,
        ;
    } else {
        let k = (m - 1) as nat;
        lemma_head_raise(data, i, b, k);
        lemma_pow2_byte((k - 1 - i) as nat);
        let p = pow2(8 * (k - 1 - i) as nat) as int;
        assert(d * (p * 256) == (d * p) * 256) by (nonlinear_arith);
        assert((k - 1 - i) as nat + 1 == (m - 1 - i) as nat);
        assert(byte_at(next, m - 1) == byte_at(data, m - 1));
    }
}

} // verus!
