//! Enumeration of pulse vectors.
//!
//! A band's shape is a vector of `n` integers whose magnitudes add up to `k`
//! pulses. It is transmitted as one number below [`codebook_size`], the number
//! of such vectors.

use crate::range::message::{law_message_round_trip, law_start_in_step, Item};
use crate::range::model::{law_uint_round_trip, DecoderState, EncoderState};
use crate::range::{RangeDecoder, RangeEncoder};
use vstd::prelude::*;

verus! {

/// The number of vectors of `n` entries with `k` pulses, signs included:
/// the first entry is zero, or takes one or more pulses with either sign.
pub open spec fn codebook_size(n: nat, k: nat) -> nat
    decreases n, k + 1,
{
    if n == 0 {
        if k == 0 {
            1
        } else {
            0
        }
    } else {
        codebook_size((n - 1) as nat, k) + 2 * u_count(n, k)
    }
}

/// The number of ways to fill the entries after the first with fewer than `k`
/// pulses.
pub open spec fn u_count(n: nat, k: nat) -> nat
    decreases n, k,
{
    if n == 0 || k == 0 {
        0
    } else {
        u_count(n, (k - 1) as nat) + codebook_size((n - 1) as nat, (k - 1) as nat)
    }
}

/// The number of pulses of a vector: the sum of the magnitudes.
pub open spec fn pulses(y: Seq<i32>) -> nat
    decreases y.len(),
{
    if y.len() == 0 {
        0
    } else {
        abs(y[0] as int) + pulses(y.skip(1))
    }
}

/// The magnitude of `x`.
pub open spec fn abs(x: int) -> nat {
    if x < 0 {
        (-x) as nat
    } else {
        x as nat
    }
}

/// The index of a vector among all with as many entries and pulses. Vectors
/// are ordered by how many pulses follow the first entry, then by those
/// entries, and those with a negative first entry come last.
pub open spec fn index_of(y: Seq<i32>) -> nat
    decreases y.len(),
{
    if y.len() == 0 {
        0
    } else {
        let rest = y.skip(1);
        let sign = if y[0] < 0 {
            u_count(y.len(), pulses(y) + 1)
        } else {
            0
        };
        index_of(rest) + u_count(y.len(), pulses(rest)) + sign
    }
}

/// The largest `m <= k` for which at most `i` vectors have fewer pulses after
/// the first entry.
pub open spec fn pulses_left(n: nat, k: nat, i: int) -> nat
    decreases k,
{
    if k == 0 || u_count(n, k) <= i {
        k
    } else {
        pulses_left(n, (k - 1) as nat, i)
    }
}

/// The vector of `n` entries and `k` pulses with index `i`.
pub open spec fn vector_at(n: nat, k: nat, i: int) -> Seq<i32>
    decreases n,
{
    if n == 0 {
        Seq::empty()
    } else {
        let negative = i >= u_count(n, k + 1);
        let j = if negative {
            i - u_count(n, k + 1)
        } else {
            i
        };
        let left = pulses_left(n, k, j);
        let first = if negative {
            left - k
        } else {
            k - left
        };
        seq![first as i32] + vector_at((n - 1) as nat, left, j - u_count(n, left))
    }
}

/// The codebook size in terms of `U`.
pub proof fn lemma_size_is_u_sum(n: nat, k: nat)
    requires
        n >= 1,
    ensures
        codebook_size(n, k) == u_count(n, k) + u_count(n, k + 1),
        u_count(n, k + 1) == u_count(n, k) + codebook_size((n - 1) as nat, k),
{
}

/// The recurrence of `U` from one row to the next.
pub proof fn lemma_u_recurrence(n: nat, k: nat)
    requires
        n >= 2,
        k >= 1,
    ensures
        u_count(n, k) == u_count((n - 1) as nat, k) + u_count(n, (k - 1) as nat) + u_count(
            (n - 1) as nat,
            (k - 1) as nat,
        ),
{
    lemma_size_is_u_sum((n - 1) as nat, (k - 1) as nat);
}

/// The first rows of `U`.
pub proof fn lemma_u_first_rows(k: nat)
    ensures
        u_count(1, k) == if k == 0 { 0nat } else { 1nat },
        u_count(2, k) == if k == 0 { 0 } else { 2 * k - 1 },
    decreases k,
{
    if k > 0 {
        lemma_u_first_rows((k - 1) as nat);
        lemma_size_is_u_sum(1, (k - 1) as nat);
        assert(codebook_size(0, (k - 1) as nat) == if k == 1 { 1nat } else { 0nat });
    }
}

/// `U` grows with the number of pulses.
pub proof fn lemma_u_grows(n: nat, a: nat, b: nat)
    requires
        a <= b,
    ensures
        u_count(n, a) <= u_count(n, b),
    decreases b,
{
    if a < b {
        lemma_u_grows(n, a, (b - 1) as nat);
    }
}

/// `U` grows with the number of entries.
pub proof fn lemma_u_grows_with_entries(m: nat, n: nat, k: nat)
    requires
        1 <= m <= n,
    ensures
        u_count(m, k) <= u_count(n, k),
    decreases n,
{
    if m < n {
        lemma_u_grows_with_entries(m, (n - 1) as nat, k);
        if k > 0 {
            lemma_u_recurrence(n, k);
        }
    }
}

/// A codebook for at least two entries is no smaller than that for two.
pub proof fn lemma_size_at_least(n: nat, k: nat)
    requires
        n >= 2,
    ensures
        codebook_size(n, k) >= 4 * k,
        k >= 1 ==> codebook_size(n, k) >= 4,
{
    lemma_size_is_u_sum(n, k);
    lemma_u_first_rows(k);
    lemma_u_first_rows(k + 1);
    lemma_u_grows_with_entries(2, n, k);
    lemma_u_grows_with_entries(2, n, k + 1);
}

/// `pulses_left` splits the indices by how many pulses follow.
pub proof fn lemma_pulses_left(n: nat, k: nat, i: int)
    requires
        n >= 1,
        0 <= i,
    ensures
        ({
            let left = pulses_left(n, k, i);
            &&& left <= k
            &&& u_count(n, left) <= i
            &&& left < k ==> i < u_count(n, left + 1)
        }),
    decreases k,
{
    if k > 0 && u_count(n, k) > i {
        lemma_pulses_left(n, (k - 1) as nat, i);
    }
}

/// The split of `pulses_left` is the only one.
pub proof fn lemma_pulses_left_unique(n: nat, k: nat, i: int, left: nat)
    requires
        n >= 1,
        left <= k,
        u_count(n, left) <= i,
        i < u_count(n, left + 1),
    ensures
        pulses_left(n, k, i) == left,
    decreases k,
{
    if left < k {
        lemma_u_grows(n, left + 1, k);
        lemma_pulses_left_unique(n, (k - 1) as nat, i, left);
    }
}

/// Every index below the codebook size names a vector with exactly `k`
/// pulses, and that vector has this index.
pub proof fn law_index_of_vector(n: nat, k: nat, i: int)
    requires
        0 <= i < codebook_size(n, k),
        k <= i32::MAX,
    ensures
        vector_at(n, k, i).len() == n,
        pulses(vector_at(n, k, i)) == k,
        index_of(vector_at(n, k, i)) == i,
    decreases n,
{
    if n > 0 {
        lemma_size_is_u_sum(n, k);
        let negative = i >= u_count(n, k + 1);
        let j = if negative {
            i - u_count(n, k + 1)
        } else {
            i
        };
        let left = pulses_left(n, k, j);
        lemma_pulses_left(n, k, j);
        lemma_size_is_u_sum(n, left);
        let rest = vector_at((n - 1) as nat, left, j - u_count(n, left));
        law_index_of_vector((n - 1) as nat, left, j - u_count(n, left));
        let y = vector_at(n, k, i);
        assert(y.skip(1) =~= rest);
    }
}

/// Every vector has an index below its codebook size, and that index names
/// this vector.
pub proof fn law_vector_of_index(y: Seq<i32>)
    ensures
        index_of(y) < codebook_size(y.len(), pulses(y)),
        vector_at(y.len(), pulses(y), index_of(y) as int) == y,
    decreases y.len(),
{
    let n = y.len();
    if n > 0 {
        let rest = y.skip(1);
        law_vector_of_index(rest);
        let k = pulses(y);
        let left = pulses(rest);
        let j = index_of(rest) + u_count(n, left);
        lemma_size_is_u_sum(n, k);
        lemma_size_is_u_sum(n, left);
        lemma_u_grows(n, left + 1, k + 1);
        if y[0] < 0 {
            lemma_u_grows(n, left + 1, k);
        }
        lemma_pulses_left_unique(n, k, j as int, left);
        assert(vector_at(n, k, index_of(y) as int) =~= y);
    } else {
        assert(y =~= Seq::empty());
    }
}

/// Every entry that the enumeration of `n` entries and `k` pulses looks up
/// fits in a register.
proof fn lemma_rows_fit(n: nat, k: nat)
    requires
        n >= 1,
        codebook_size(n, k) <= u32::MAX,
    ensures
        forall|m: nat, j: nat|
            1 <= m <= n && j <= k + 1 ==> #[trigger] u_count(m, j) <= u32::MAX,
{
    lemma_size_is_u_sum(n, k);
    assert forall|m: nat, j: nat| 1 <= m <= n && j <= k + 1 implies #[trigger] u_count(m, j)
        <= u32::MAX by {
        lemma_u_grows(m, j, k + 1);
        lemma_u_grows_with_entries(m, n, k + 1);
    }
}

/// Entry `m` of a row follows from its neighbours by the recurrence, modulo
/// 2^32.
spec fn entry_summed(old_row: Seq<u32>, new_row: Seq<u32>, m: int) -> bool {
    new_row[m] == (old_row[m] + old_row[m - 1] + new_row[m - 1]) % 0x1_0000_0000
}

/// Entry `m` of a row follows from its neighbours by the inverse recurrence,
/// modulo 2^32.
spec fn entry_reduced(old_row: Seq<u32>, new_row: Seq<u32>, m: int) -> bool {
    new_row[m] == (old_row[m] - old_row[m - 1] - new_row[m - 1]) % 0x1_0000_0000
}

/// Advances the entries `from..to` by one row of the recurrence
/// `new[j] = old[j] + old[j - 1] + new[j - 1]`; `ui0` is the new row's first
/// entry. Sums wrap.
fn unext(u: &mut [u32], from: usize, to: usize, ui0: u32)
    requires
        from < to <= old(u)@.len(),
    ensures
        final(u)@.len() == old(u)@.len(),
        final(u)@[from as int] == ui0,
        forall|j: int|
            from < j < to ==> #[trigger] entry_summed(old(u)@, final(u)@, j),
        forall|j: int|
            0 <= j < old(u)@.len() && !(from <= j < to) ==> final(u)@[j] == old(u)@[j],
{
    let mut carried = ui0;
    let mut j = from + 1;
    while j < to
        invariant
            from < j <= to <= u@.len(),
            u@.len() == old(u)@.len(),
            j - 1 == from ==> carried == ui0,
            j - 1 > from ==> u@[from as int] == ui0,
            j - 1 > from ==> carried == (old(u)@[j - 1] + old(u)@[j - 2] + u@[j - 2])
                % 0x1_0000_0000,
            forall|m: int| from < m < j - 1 ==> #[trigger] entry_summed(old(u)@, u@, m),
            forall|m: int|
                0 <= m < u@.len() && !(from <= m < j - 1) ==> u@[m] == old(u)@[m],
        decreases to - j,
    {
        let ghost before = u@;
        let next = u[j].wrapping_add(u[j - 1]).wrapping_add(carried);
        u[j - 1] = carried;
        proof {
            assert forall|m: int| from < m < j implies #[trigger] entry_summed(
                old(u)@,
                u@,
                m,
            ) by {
                if m < j - 1 {
                    assert(entry_summed(old(u)@, before, m));
                }
            }
        }
        carried = next;
        j = j + 1;
    }
    let ghost before = u@;
    u[to - 1] = carried;
    proof {
        assert forall|m: int| from < m < to implies #[trigger] entry_summed(old(u)@, u@, m) by {
            if m < to - 1 {
                assert(entry_summed(old(u)@, before, m));
            }
        }
    }
}

/// Inverse of [`unext`] on the entries `0..to`: steps back by one row, whose
/// first entry is `ui0`. Differences wrap.
fn uprev(u: &mut [u32], to: usize, ui0: u32)
    requires
        0 < to <= old(u)@.len(),
    ensures
        final(u)@.len() == old(u)@.len(),
        final(u)@[0] == ui0,
        forall|j: int|
            0 < j < to ==> #[trigger] entry_reduced(old(u)@, final(u)@, j),
        forall|j: int| to <= j < old(u)@.len() ==> final(u)@[j] == old(u)@[j],
{
    let mut carried = ui0;
    let mut j: usize = 1;
    while j < to
        invariant
            0 < j <= to <= u@.len(),
            u@.len() == old(u)@.len(),
            j == 1 ==> carried == ui0,
            j > 1 ==> u@[0] == ui0,
            j > 1 ==> carried == (old(u)@[j - 1] - old(u)@[j - 2] - u@[j - 2]) % 0x1_0000_0000,
            forall|m: int| 0 < m < j - 1 ==> #[trigger] entry_reduced(old(u)@, u@, m),
            forall|m: int| j - 1 <= m < u@.len() ==> u@[m] == old(u)@[m],
        decreases to - j,
    {
        let ghost before = u@;
        let next = u[j].wrapping_sub(u[j - 1]).wrapping_sub(carried);
        u[j - 1] = carried;
        proof {
            assert forall|m: int| 0 < m < j implies #[trigger] entry_reduced(old(u)@, u@, m) by {
                if m < j - 1 {
                    assert(entry_reduced(old(u)@, before, m));
                }
            }
        }
        carried = next;
        j = j + 1;
    }
    let ghost before = u@;
    u[to - 1] = carried;
    proof {
        assert forall|m: int| 0 < m < to implies #[trigger] entry_reduced(old(u)@, u@, m) by {
            if m < to - 1 {
                assert(entry_reduced(old(u)@, before, m));
            }
        }
    }
}

/// Entries `0..to` of `u` are row `n` of `U`.
pub open spec fn is_row(u: Seq<u32>, n: nat, to: nat) -> bool {
    forall|j: int| 0 <= j < to ==> #[trigger] u[j] == u_count(n, j as nat)
}

/// A row computed from its predecessor by the recurrence.
proof fn lemma_next_row(old_row: Seq<u32>, new_row: Seq<u32>, n: nat, k: nat, from: nat, j: nat)
    requires
        n >= 2,
        codebook_size(n, k) <= u32::MAX,
        from <= 1,
        j < k + 2,
        is_row(old_row, (n - 1) as nat, k + 2),
        new_row[from as int] == u_count(n, from),
        forall|m: int|
            from < m < k + 2 ==> #[trigger] entry_summed(old_row, new_row, m),
        forall|m: int| 0 <= m < from ==> new_row[m] == old_row[m],
    ensures
        new_row[j as int] == u_count(n, j),
    decreases j,
{
    lemma_rows_fit(n, k);
    if j > from {
        lemma_next_row(old_row, new_row, n, k, from, (j - 1) as nat);
        assert(entry_summed(old_row, new_row, j as int));
        lemma_u_recurrence(n, j);
        assert(u_count(n, j) <= u32::MAX);
    } else if j < from {
        assert(j == 0);
        assert(u_count(n, 0) == 0);
        assert(u_count((n - 1) as nat, 0) == 0);
    }
}

/// Computes the codebook size and fills `u[j] = U(n, j)` for `j <= k + 1`.
pub fn ncwrs_urow(n: usize, k: usize, u: &mut [u32]) -> (size: u32)
    requires
        n >= 2,
        k >= 1,
        old(u)@.len() == k + 2,
        codebook_size(n as nat, k as nat) <= u32::MAX,
    ensures
        size == codebook_size(n as nat, k as nat),
        final(u)@.len() == old(u)@.len(),
        is_row(final(u)@, n as nat, k as nat + 2),
{
    proof {
        lemma_size_at_least(n as nat, k as nat);
        lemma_rows_fit(n as nat, k as nat);
    }
    u[0] = 0;
    u[1] = 1;
    let mut i: usize = 2;
    while i < u.len()
        invariant
            2 <= i <= k + 2,
            k < 0x4000_0000,
            u@.len() == k + 2,
            u@[0] == 0,
            forall|j: int| 1 <= j < i ==> u@[j] == 2 * j - 1,
        decreases u@.len() - i,
    {
        u[i] = (i as u32) * 2 - 1;
        i = i + 1;
    }
    assert(is_row(u@, 2, k as nat + 2)) by {
        assert forall|j: int| 0 <= j < k + 2 implies #[trigger] u@[j] == u_count(2, j as nat) by {
            lemma_u_first_rows(j as nat);
        }
    }
    let mut row: usize = 2;
    while row < n
        invariant
            2 <= row <= n,
            k >= 1,
            u@.len() == k + 2,
            codebook_size(n as nat, k as nat) <= u32::MAX,
            is_row(u@, row as nat, k as nat + 2),
        decreases n - row,
    {
        let ghost before = u@;
        let len = u.len();
        unext(u, 1, len, 1);
        row = row + 1;
        proof {
            lemma_size_is_u_sum(row as nat, k as nat);
            lemma_size_is_u_sum(n as nat, k as nat);
            lemma_u_grows_with_entries(row as nat, n as nat, k as nat);
            lemma_u_grows_with_entries(row as nat, n as nat, k as nat + 1);
            lemma_u_one(row as nat);
            assert forall|j: int| 0 <= j < k + 2 implies #[trigger] u@[j] == u_count(
                row as nat,
                j as nat,
            ) by {
                lemma_next_row(before, u@, row as nat, k as nat, 1, j as nat);
            }
        }
    }
    proof {
        lemma_size_is_u_sum(n as nat, k as nat);
    }
    u[k] + u[k + 1]
}

/// One vector has no pulse after its first entry.
proof fn lemma_u_one(n: nat)
    requires
        n >= 1,
    ensures
        u_count(n, 1) == 1,
    decreases n,
{
    assert(u_count(n, 1) == u_count(n, 0) + codebook_size((n - 1) as nat, 0));
    assert(u_count(n, 0) == 0);
    lemma_one_empty((n - 1) as nat);
}

/// There is one vector without pulses.
proof fn lemma_one_empty(n: nat)
    ensures
        codebook_size(n, 0) == 1,
    decreases n,
{
    if n > 0 {
        lemma_one_empty((n - 1) as nat);
        assert(u_count(n, 0) == 0);
    }
}

/// The size of the pulse codebook: the number of vectors of `n` entries with
/// `k` signed pulses.
pub fn pvq_codebook_size(n: usize, k: usize) -> (size: u32)
    requires
        n >= 2,
        k >= 1,
        codebook_size(n as nat, k as nat) <= u32::MAX,
    ensures
        size == codebook_size(n as nat, k as nat),
{
    proof {
        lemma_size_at_least(n as nat, k as nat);
    }
    let mut u: Vec<u32> = vec![0; k + 2];
    ncwrs_urow(n, k, &mut u)
}

/// A row stepped back by the recurrence.
proof fn lemma_prev_row(old_row: Seq<u32>, new_row: Seq<u32>, n: nat, to: nat, j: nat)
    requires
        n >= 2,
        j < to,
        is_row(old_row, n, to),
        new_row[0] == 0,
        forall|m: int| 0 < m < to ==> #[trigger] entry_reduced(old_row, new_row, m),
    ensures
        new_row[j as int] == u_count((n - 1) as nat, j),
    decreases j,
{
    if j > 0 {
        lemma_prev_row(old_row, new_row, n, to, (j - 1) as nat);
        assert(entry_reduced(old_row, new_row, j as int));
        lemma_u_recurrence(n, j);
        assert(old_row[j as int] == u_count(n, j));
        assert(old_row[j - 1] == u_count(n, (j - 1) as nat));
    } else {
        assert(u_count((n - 1) as nat, 0) == 0);
    }
}

/// Decodes index `i` into the vector `y` of `k` pulses. `u` holds the row of
/// `U` for as many entries as `y` has, and is used up.
pub fn cwrsi(k: usize, i: u32, y: &mut [i32], u: &mut [u32])
    requires
        old(y)@.len() >= 1,
        old(u)@.len() >= k + 2,
        k < 0x4000_0000,
        is_row(old(u)@, old(y)@.len(), k as nat + 2),
        i < codebook_size(old(y)@.len(), k as nat),
    ensures
        final(y)@ == vector_at(old(y)@.len(), k as nat, i as int),
        final(u)@.len() == old(u)@.len(),
{
    let n = y.len();
    let ghost goal = vector_at(n as nat, k as nat, i as int);
    let mut left = k;
    let mut rest = i;
    let mut at: usize = 0;
    proof {
        law_index_of_vector(n as nat, k as nat, i as int);
        assert(y@.take(0) + goal =~= goal);
    }
    while at < n
        invariant
            at <= n,
            n == y@.len(),
            n == old(y)@.len(),
            u@.len() == old(u)@.len(),
            left + 2 <= u@.len(),
            left < 0x4000_0000,
            at < n ==> is_row(u@, (n - at) as nat, left as nat + 2),
            rest < codebook_size((n - at) as nat, left as nat),
            y@.take(at as int) + vector_at((n - at) as nat, left as nat, rest as int) == goal,
        decreases n - at,
    {
        let ghost m = (n - at) as nat;
        let ghost k0 = left as nat;
        let ghost i0 = rest as int;
        proof {
            lemma_size_is_u_sum(m, k0);
        }
        let p = u[left + 1];
        let negative = rest >= p;
        if negative {
            rest = rest - p;
        }
        let before = left;
        let ghost j = rest as int;
        proof {
            lemma_pulses_left(m, k0, j);
        }
        while u[left] > rest
            invariant
                left <= before,
                before == k0,
                before + 2 <= u@.len(),
                m >= 1,
                j == rest,
                is_row(u@, m, before as nat + 2),
                pulses_left(m, left as nat, j) == pulses_left(m, k0, j),
            decreases left,
        {
            assert(u@[left as int] == u_count(m, left as nat));
            assert(u_count(m, 0) == 0);
            left = left - 1;
        }
        assert(u@[left as int] == u_count(m, left as nat));
        assert(left == pulses_left(m, k0, j));
        rest = rest - u[left];
        let mag = (before - left) as i32;
        let ghost seen = y@;
        y[at] = if negative { 0 - mag } else { mag };
        let ghost row = u@;
        uprev(u, left + 2, 0);
        proof {
            lemma_size_is_u_sum(m, left as nat);
            if m >= 2 {
                assert forall|q: int| 0 <= q < left + 2 implies #[trigger] u@[q] == u_count(
                    (m - 1) as nat,
                    q as nat,
                ) by {
                    lemma_prev_row(row, u@, m, left as nat + 2, q as nat);
                }
            }
            let tail = vector_at((m - 1) as nat, left as nat, rest as int);
            assert(vector_at(m, k0, i0) == seq![y@[at as int]] + tail);
            assert(y@.take(at + 1) + tail =~= seen.take(at as int) + (seq![y@[at as int]] + tail));
        }
        at = at + 1;
    }
    proof {
        assert(y@.take(n as int) + vector_at(0, left as nat, rest as int) =~= y@);
    }
}

/// The first entry of a suffix and what follows it.
proof fn lemma_suffix(y: Seq<i32>, j: int)
    requires
        0 <= j < y.len(),
    ensures
        y.skip(j).len() == y.len() - j,
        y.skip(j)[0] == y[j],
        y.skip(j).skip(1) == y.skip(j + 1),
        pulses(y.skip(j)) == abs(y[j] as int) + pulses(y.skip(j + 1)),
{
    assert(y.skip(j).skip(1) =~= y.skip(j + 1));
}

/// A suffix has no more pulses than the whole vector.
proof fn lemma_suffix_pulses(y: Seq<i32>, j: int)
    requires
        0 <= j <= y.len(),
    ensures
        pulses(y.skip(j)) <= pulses(y),
    decreases j,
{
    if j > 0 {
        lemma_suffix_pulses(y, j - 1);
        lemma_suffix(y, j - 1);
    } else {
        assert(y.skip(0) =~= y);
    }
}

/// The index of a suffix and its codebook fit in a register where those of
/// the whole vector do.
proof fn lemma_suffix_fits(y: Seq<i32>, j: int, k: nat)
    requires
        0 <= j < y.len(),
        k == pulses(y),
        codebook_size(y.len(), k) <= u32::MAX,
    ensures
        pulses(y.skip(j)) <= k,
        index_of(y.skip(j)) < codebook_size((y.len() - j) as nat, pulses(y.skip(j))),
        codebook_size((y.len() - j) as nat, pulses(y.skip(j))) <= u32::MAX,
        codebook_size((y.len() - j) as nat, k) <= u32::MAX,
{
    let s = y.skip(j);
    let m = (y.len() - j) as nat;
    let kk = pulses(s);
    lemma_suffix_pulses(y, j);
    law_vector_of_index(s);
    lemma_size_is_u_sum(m, kk);
    lemma_size_is_u_sum(m, k);
    lemma_size_is_u_sum(y.len(), k);
    lemma_u_grows(m, kk, k);
    lemma_u_grows(m, kk + 1, k + 1);
    lemma_u_grows_with_entries(m, y.len(), k);
    lemma_u_grows_with_entries(m, y.len(), k + 1);
}

/// The magnitude of an entry.
fn magnitude(x: i32) -> (m: usize)
    requires
        x > i32::MIN,
    ensures
        m == abs(x as int),
{
    if x < 0 {
        (0 - x) as usize
    } else {
        x as usize
    }
}

/// Computes the index of the vector `y`, whose magnitudes add up to `k`, and
/// the codebook size. `u` is scratch space.
pub fn icwrs(k: usize, y: &[i32], u: &mut [u32]) -> (found: (u32, u32))
    requires
        y@.len() >= 2,
        k >= 1,
        pulses(y@) == k,
        old(u)@.len() == k + 2,
        codebook_size(y@.len(), k as nat) <= u32::MAX,
    ensures
        found.0 == index_of(y@),
        found.1 == codebook_size(y@.len(), k as nat),
        found.0 < found.1,
        final(u)@.len() == old(u)@.len(),
{
    let n = y.len();
    proof {
        lemma_size_at_least(n as nat, k as nat);
        lemma_suffix_fits(y@, n - 2, k as nat);
        lemma_suffix_pulses(y@, n - 1);
        lemma_suffix(y@, n - 1);
        lemma_suffix(y@, n - 2);
        assert(y@.skip(n as int) =~= Seq::empty());
        assert(y@.skip(0) =~= y@);
    }
    u[0] = 0;
    let mut at: usize = 1;
    while at < u.len()
        invariant
            1 <= at <= k + 2,
            k < 0x4000_0000,
            u@.len() == k + 2,
            u@[0] == 0,
            forall|j: int| 1 <= j < at ==> u@[j] == 2 * j - 1,
        decreases u@.len() - at,
    {
        u[at] = (at as u32) * 2 - 1;
        at = at + 1;
    }
    assert(is_row(u@, 2, k as nat + 2)) by {
        assert forall|j: int| 0 <= j < k + 2 implies #[trigger] u@[j] == u_count(2, j as nat) by {
            lemma_u_first_rows(j as nat);
        }
    }
    // The last entry alone.
    let mut i: u32 = if y[n - 1] < 0 { 1 } else { 0 };
    let mut kk: usize = magnitude(y[n - 1]);
    proof {
        lemma_u_first_rows(0);
        lemma_u_first_rows(kk as nat + 1);
        let s = y@.skip(n - 1);
        assert(s.skip(1) =~= Seq::<i32>::empty());
        assert(pulses(s.skip(1)) == 0);
        assert(kk == pulses(s));
        assert(index_of(s.skip(1)) == 0);
        assert(s.len() == 1);
        assert(s[0] == y@[n - 1]);
        assert(index_of(s) == index_of(s.skip(1)) + u_count(1, 0) + if s[0] < 0 {
            u_count(1, (kk + 1) as nat)
        } else {
            0
        });
    }
    let mut j: usize = n - 1;
    while j > 0
        invariant
            0 <= j <= n - 1,
            n == y@.len(),
            k < 0x4000_0000,
            k == pulses(y@),
            k >= 1,
            u@.len() == k + 2,
            codebook_size(n as nat, k as nat) <= u32::MAX,
            kk == pulses(y@.skip(j as int)),
            i == index_of(y@.skip(j as int)),
            is_row(u@, if j == n - 1 { 2 } else { (n - j) as nat }, k as nat + 2),
        decreases j,
    {
        let ghost s = y@.skip(j as int);
        j = j - 1;
        let ghost m = (n - j) as nat;
        proof {
            lemma_suffix_fits(y@, j as int, k as nat);
            lemma_suffix(y@, j as int);
            lemma_suffix_pulses(y@, j + 1);
        }
        if j < n - 2 {
            let ghost before = u@;
            let len = u.len();
            unext(u, 0, len, 0);
            proof {
                assert(u_count(m, 0) == 0);
                assert forall|q: int| 0 <= q < k + 2 implies #[trigger] u@[q] == u_count(
                    m,
                    q as nat,
                ) by {
                    lemma_next_row(before, u@, m, k as nat, 0, q as nat);
                }
            }
        }
        assert(is_row(u@, m, k as nat + 2));
        assert(u@[kk as int] == u_count(m, kk as nat));
        i = i + u[kk];
        kk = kk + magnitude(y[j]);
        assert(u@[kk + 1] == u_count(m, (kk + 1) as nat));
        if y[j] < 0 {
            i = i + u[kk + 1];
        }
    }
    proof {
        lemma_size_is_u_sum(n as nat, k as nat);
        law_vector_of_index(y@);
        assert(u@[k as int] == u_count(n as nat, k as nat));
        assert(u@[k + 1] == u_count(n as nat, (k + 1) as nat));
    }
    (i, u[kk] + u[kk + 1])
}

/// Decodes `k` signed unit pulses into `y`. `None` when the coded index is out
/// of range, which only a corrupt frame produces; `y` is then left alone.
pub fn decode_pulses(dec: &mut RangeDecoder, y: &mut [i32], k: usize) -> (done: Option<()>)
    requires
        old(dec).inv(),
        old(dec)@.nbits_total() + 48 <= u32::MAX,
        old(y)@.len() >= 2,
        k >= 1,
        codebook_size(old(y)@.len(), k as nat) <= u32::MAX,
    ensures
        ({
            let size = codebook_size(old(y)@.len(), k as nat) as int;
            let i = old(dec)@.next_uint(size);
            &&& done is Some <==> i < size
            &&& i < size ==> final(y)@ == vector_at(old(y)@.len(), k as nat, i)
            &&& i >= size ==> final(y)@ == old(y)@
            &&& final(dec)@ == old(dec)@.take_uint(size)
        }),
        final(dec).inv(),
{
    proof {
        lemma_size_at_least(y@.len(), k as nat);
    }
    let mut u: Vec<u32> = vec![0; k + 2];
    let n = y.len();
    let size = ncwrs_urow(n, k, &mut u);
    match dec.decode_uint(size) {
        Some(i) => {
            cwrsi(k, i, y, &mut u);
            Some(())
        },
        None => None,
    }
}

/// Encodes the pulse vector `y`, whose magnitudes add up to `k`.
pub fn encode_pulses(enc: &mut RangeEncoder, y: &[i32], k: usize)
    requires
        old(enc).inv(),
        old(enc)@.nbits_total() + 48 <= u32::MAX,
        y@.len() >= 2,
        k >= 1,
        pulses(y@) == k,
        codebook_size(y@.len(), k as nat) <= u32::MAX,
    ensures
        final(enc).inv(),
        final(enc).size() == old(enc).size(),
        final(enc)@ == old(enc)@.encode_uint(
            index_of(y@) as int,
            codebook_size(y@.len(), k as nat) as int,
        ),
{
    proof {
        lemma_size_at_least(y@.len(), k as nat);
    }
    let mut u: Vec<u32> = vec![0; k + 2];
    let (i, size) = icwrs(k, y, &mut u);
    enc.encode_uint(i, size);
}

/// Pulse vectors survive the range coder: over any frame that carries the
/// encoded vector, the decoder finds its index and with it the vector, and
/// ends in step with the encoder.
pub proof fn law_pulses_round_trip(dec: DecoderState, enc: EncoderState, y: Seq<i32>)
    requires
        enc.valid(),
        dec.follows(enc),
        y.len() >= 2,
        pulses(y) >= 1,
        codebook_size(y.len(), pulses(y)) <= u32::MAX,
        enc.encode_uint(index_of(y) as int, codebook_size(y.len(), pulses(y)) as int).carried_by(
            dec.data,
        ),
    ensures
        ({
            let size = codebook_size(y.len(), pulses(y)) as int;
            &&& dec.next_uint(size) < size
            &&& vector_at(y.len(), pulses(y), dec.next_uint(size)) == y
            &&& dec.take_uint(size).follows(enc.encode_uint(index_of(y) as int, size))
        }),
{
    lemma_size_at_least(y.len(), pulses(y));
    law_vector_of_index(y);
    law_uint_round_trip(
        dec,
        enc,
        index_of(y) as int,
        codebook_size(y.len(), pulses(y)) as int,
    );
}

/// Whether a vector can be coded: it has two or more entries and a pulse, and
/// its codebook can be counted.
pub open spec fn vector_codable(y: Seq<i32>) -> bool {
    &&& y.len() >= 2
    &&& pulses(y) >= 1
    &&& codebook_size(y.len(), pulses(y)) <= u32::MAX
}

/// The items that vectors are coded as.
pub open spec fn pulse_items(vectors: Seq<Seq<i32>>) -> Seq<Item> {
    Seq::new(
        vectors.len(),
        |i: int|
            Item::Uint {
                t: index_of(vectors[i]) as int,
                ft: codebook_size(vectors[i].len(), pulses(vectors[i])) as int,
            },
    )
}

/// Whether a decoder takes this vector next.
pub open spec fn pulses_found(dec: DecoderState, y: Seq<i32>) -> bool {
    let size = codebook_size(y.len(), pulses(y)) as int;
    &&& dec.next_uint(size) < size
    &&& vector_at(y.len(), pulses(y), dec.next_uint(size)) == y
}

/// From a frame that holds a run of vectors, a new decoder reads one vector
/// after the other, and ends with the range of the encoder.
pub proof fn law_pulses_frame_round_trip(vectors: Seq<Seq<i32>>, frame: Seq<u8>)
    requires
        forall|i: int| 0 <= i < vectors.len() ==> vector_codable(#[trigger] vectors[i]),
        EncoderState::initial().write_all(pulse_items(vectors), vectors.len()).carried_by(frame),
    ensures
        ({
            let dec = DecoderState::initial(frame);
            let items = pulse_items(vectors);
            &&& forall|n: nat|
                n < vectors.len() ==> pulses_found(
                    #[trigger] dec.read_all(items, n),
                    vectors[n as int],
                )
            &&& dec.read_all(items, vectors.len()).rng == EncoderState::initial().write_all(
                items,
                vectors.len(),
            ).rng
        }),
{
    let dec = DecoderState::initial(frame);
    let enc = EncoderState::initial();
    let items = pulse_items(vectors);
    law_start_in_step(frame);
    assert forall|i: int| 0 <= i < items.len() implies (#[trigger] items[i]).valid() by {
        assert(vector_codable(vectors[i]));
        lemma_size_at_least(vectors[i].len(), pulses(vectors[i]));
        law_vector_of_index(vectors[i]);
    }
    assert forall|n: nat| n < vectors.len() implies pulses_found(
        #[trigger] dec.read_all(items, n),
        vectors[n as int],
    ) by {
        law_message_round_trip(dec, enc, items, n);
        law_vector_of_index(vectors[n as int]);
    }
    law_message_round_trip(dec, enc, items, vectors.len());
}

/// The order of the vectors. Those whose first entry is negative come last;
/// among the others, and among those, a larger first magnitude comes first, and
/// where the first entries are equal the remaining ones decide.
pub open spec fn precedes(y: Seq<i32>, z: Seq<i32>) -> bool
    decreases y.len(),
{
    if y.len() == 0 || z.len() == 0 {
        false
    } else if (y[0] < 0) != (z[0] < 0) {
        z[0] < 0
    } else if y[0] != z[0] {
        abs(y[0] as int) > abs(z[0] as int)
    } else {
        precedes(y.skip(1), z.skip(1))
    }
}

/// Vectors are numbered in that order.
pub proof fn law_indices_in_order(y: Seq<i32>, z: Seq<i32>)
    requires
        y.len() == z.len(),
        pulses(y) == pulses(z),
        precedes(y, z),
    ensures
        index_of(y) < index_of(z),
    decreases y.len(),
{
    let n = y.len();
    let k = pulses(y);
    let (a, b) = (y.skip(1), z.skip(1));
    let (p, q) = (pulses(a), pulses(b));
    law_vector_of_index(a);
    law_vector_of_index(b);
    lemma_size_is_u_sum(n, p);
    lemma_size_is_u_sum(n, q);
    if (y[0] < 0) != (z[0] < 0) {
        lemma_u_grows(n, p + 1, k + 1);
    } else if y[0] != z[0] {
        lemma_u_grows(n, p + 1, q);
    } else {
        law_indices_in_order(a, b);
    }
}

/// Of two different vectors one comes first.
pub proof fn law_order_is_total(y: Seq<i32>, z: Seq<i32>)
    requires
        y.len() == z.len(),
        pulses(y) == pulses(z),
        y != z,
    ensures
        precedes(y, z) || precedes(z, y),
    decreases y.len(),
{
    if y.len() == 0 {
        assert(y =~= z);
    } else if y[0] == z[0] {
        let (a, b) = (y.skip(1), z.skip(1));
        if a == b {
            assert forall|i: int| 0 <= i < y.len() implies y[i] == z[i] by {
                if i > 0 {
                    assert(y[i] == a[i - 1] && z[i] == b[i - 1]);
                }
            }
            assert(y =~= z);
        }
        law_order_is_total(a, b);
    }
}

} // verus!
