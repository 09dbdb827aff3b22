//! The range decoder.

use super::digits::{byte_at, head, lemma_byte_from_end, lemma_head_bound, whole};
use super::encoder::{power_of_two, shift_left, shift_right};
use super::model::{
    lemma_decoder_normalize_valid, lemma_initial, lemma_symbol_interval, lemma_uint_parts,
    lemma_update_keeps_raw, lemma_update_valid, DecoderState,
};
use super::{bit_length, ilog, range_eighths, tell_frac, CODE_BOT, CODE_TOP, SYM_BITS};
use vstd::arithmetic::div_mod::{
    lemma_div_denominator, lemma_fundamental_div_mod, lemma_fundamental_div_mod_converse,
    lemma_mod_bound,
};
use vstd::arithmetic::power2::{
    lemma2_to64, lemma_pow2_adds, lemma_pow2_pos, lemma_pow2_strictly_increases, pow2,
};
use vstd::prelude::*;
use vstd::slice::slice_subrange;

verus! {

/// The Opus range decoder over one frame.
///
/// Range-coded symbols are read from the front, raw bits from the back; past
/// either end the frame reads as zeros.
pub struct RangeDecoder<'a> {
    data: &'a [u8],
    /// Front bytes read.
    offs: usize,
    /// Bytes read from the end.
    end_offs: usize,
    /// Raw bits read and not yet taken.
    end_window: u32,
    /// Number of valid bits in `end_window`.
    nend_bits: u32,
    /// Upper bound on the whole bits consumed so far.
    nbits_total: u32,
    /// Size of the current range.
    rng: u32,
    /// Distance of the code from the top of the current range.
    val: u32,
    /// The last front byte read.
    rem: u8,
    /// Symbols of eight bits shifted in since the start.
    count: Ghost<nat>,
}

impl<'a> View for RangeDecoder<'a> {
    type V = DecoderState;

    closed spec fn view(&self) -> DecoderState {
        DecoderState {
            data: self.data@,
            val: self.val as int,
            rng: self.rng as int,
            count: self.count@,
            rem: self.rem as int,
            raw_bits: (self.nbits_total - 33 - 8 * self.count@) as nat,
        }
    }
}

impl Clone for RangeDecoder<'_> {
    fn clone(&self) -> (copy: Self)
        ensures
            copy@ == self@,
            self.inv() ==> copy.inv(),
    {
        RangeDecoder {
            data: self.data,
            offs: self.offs,
            end_offs: self.end_offs,
            end_window: self.end_window,
            nend_bits: self.nend_bits,
            nbits_total: self.nbits_total,
            rng: self.rng,
            val: self.val,
            rem: self.rem,
            count: Ghost(self.count@),
        }
    }
}

impl<'a> RangeDecoder<'a> {
    /// The front bytes read are those the shift count asks for.
    spec fn front_read(&self) -> bool {
        &&& self.offs < self.data@.len() ==> self.offs == self.count@ + 4
        &&& self.offs >= self.data@.len() ==> self.count@ + 4 >= self.data@.len()
        &&& self.nbits_total >= 33 + 8 * self.count@
    }

    /// The window holds the next raw bits.
    spec fn back_read(&self) -> bool {
        let w = whole(self.data@);
        let taken = self@.raw_bits;
        let read = (taken + self.nend_bits) / 8;
        &&& self.nend_bits <= 32
        &&& taken == 0 ==> self.nend_bits == 0
        &&& (taken + self.nend_bits) % 8 == 0
        &&& self.end_offs == if read < self.data@.len() { read } else { self.data@.len() as int }
        &&& self.end_window == (w / pow2(taken) as int) % pow2(self.nend_bits as nat) as int
    }

    /// The decoder's invariant.
    pub closed spec fn inv(&self) -> bool {
        &&& self.front_read()
        &&& self.back_read()
        &&& self@.valid()
    }

    /// Reads the next front byte, zero past the end.
    fn read_byte(&mut self) -> (b: u8)
        requires
            old(self).front_read(),
        ensures
            b == byte_at(old(self).data@, old(self).count@ as int + 4),
            final(self).offs == if old(self).offs < old(self).data@.len() {
                old(self).offs + 1
            } else {
                old(self).offs as int
            },
            *final(self) == (RangeDecoder { offs: final(self).offs, ..*old(self) }),
    {
        if self.offs < self.data.len() {
            let b = self.data[self.offs];
            self.offs = self.offs + 1;
            b
        } else {
            0
        }
    }

    /// Shifts symbols in until the range exceeds `CODE_BOT`.
    fn normalize(&mut self)
        requires
            old(self).front_read(),
            old(self).back_read(),
            old(self).val < old(self).rng <= CODE_TOP,
            old(self).nbits_total + 24 <= u32::MAX,
        ensures
            final(self).inv(),
            final(self)@ == old(self)@.normalize(),
    {
        proof {
            lemma_decoder_normalize_valid(self@);
        }
        while self.rng <= CODE_BOT
            invariant
                self.front_read(),
                self.back_read(),
                self.val < self.rng <= CODE_TOP,
                self@.normalize() == old(self)@.normalize(),
                self.rng <= CODE_BOT ==> self.nbits_total + 8 <= u32::MAX,
                self.rng < 0x1_0000 ==> self.nbits_total + 16 <= u32::MAX,
                self.rng < 0x100 ==> self.nbits_total + 24 <= u32::MAX,
            decreases CODE_TOP - self.rng,
        {
            let ghost before = *self;
            let next = self.read_byte();
            let sym = ((self.rem % 2) as u32 * 256 + next as u32) / 2;
            self.val = self.val * 256 + (255 - sym);
            self.rng = self.rng * 256;
            self.nbits_total = self.nbits_total + SYM_BITS;
            self.rem = next;
            self.count = Ghost(self.count@ + 1);
            assert(self@ == before@.shift_in());
        }
    }

    /// Narrows the range to `size` values starting `offset` above its low end.
    fn narrow(&mut self, offset: u32, size: u32)
        requires
            old(self).inv(),
            offset + size <= old(self)@.rng,
            old(self)@.rng - offset - size <= old(self)@.val < old(self)@.rng - offset,
            old(self)@.nbits_total() + 24 <= u32::MAX,
        ensures
            final(self).inv(),
            final(self)@ == old(self)@.narrow(offset as int, size as int),
            final(self)@.nbits_total() <= old(self)@.nbits_total() + 24,
    {
        self.val = self.val - (self.rng - offset - size);
        self.rng = size;
        proof {
            reveal_with_fuel(DecoderState::normalize, 4);
        }
        self.normalize();
    }

    /// The state of a coder that keeps its invariant is valid.
    pub proof fn lemma_valid(&self)
        requires
            self.inv(),
        ensures
            self@.valid(),
    {
    }

    /// Starts decoding a frame.
    pub fn new(data: &'a [u8]) -> (dec: Self)
        ensures
            dec.inv(),
            dec@ == DecoderState::initial(data@),
    {
        let n = data.len();
        let b0: u32 = if n > 0 { data[0] as u32 } else { 0 };
        let b1: u32 = if n > 1 { data[1] as u32 } else { 0 };
        let b2: u32 = if n > 2 { data[2] as u32 } else { 0 };
        let b3: u32 = if n > 3 { data[3] as u32 } else { 0 };
        let lead = (b0 * 0x100_0000 + b1 * 0x1_0000 + b2 * 0x100 + b3) / 2;
        let dec = RangeDecoder {
            data,
            offs: if n > 4 { 4 } else { n },
            end_offs: 0,
            end_window: 0,
            nend_bits: 0,
            nbits_total: 33,
            rng: CODE_TOP,
            val: (CODE_TOP - 1) - lead,
            rem: b3 as u8,
            count: Ghost(0),
        };
        proof {
            reveal_with_fuel(head, 5);
            lemma2_to64();
            lemma_initial(data@);
            assert(dec@ == DecoderState::initial(data@));
            let w = whole(data@);
            assert((w / 1) % 1 == 0);
        }
        dec
    }

    /// The frequency, out of `ft`, that the next symbol falls on.
    pub fn decode(&self, ft: u32) -> (fm: u32)
        requires
            self.inv(),
            1 <= ft <= 65536,
        ensures
            fm == self@.frequency(ft as int),
            fm < ft,
    {
        proof {
            lemma_update_valid(self@, 0, 0, ft as int);
            lemma_symbol_interval(self.rng as int, 0, 1, ft as int);
            let v = self.val as int;
            let r = (self.rng / ft) as int;
            lemma_fundamental_div_mod(v, r);
            assert(0 <= v / r <= v) by (nonlinear_arith)
                requires
                    r >= 1,
                    v >= 0,
                    v == r * (v / r) + v % r,
                    0 <= v % r < r,
            ;
        }
        let r = self.rng / ft;
        let above = self.val / r + 1;
        if above < ft {
            ft - above
        } else {
            0
        }
    }

    /// Like [`decode`](Self::decode) with a total of `2^ftb`.
    pub fn decode_bin(&self, ftb: u32) -> (fm: u32)
        requires
            self.inv(),
            ftb <= 16,
        ensures
            fm == self@.frequency(pow2(ftb as nat) as int),
            fm < pow2(ftb as nat),
    {
        proof {
            lemma2_to64();
            lemma_pow2_pos(ftb as nat);
            if ftb < 16 {
                lemma_pow2_strictly_increases(ftb as nat, 16);
            }
        }
        self.decode(power_of_two(ftb))
    }

    /// Takes the symbol that owns the frequencies `fl..fh` out of `ft`.
    pub fn update(&mut self, fl: u32, fh: u32, ft: u32)
        requires
            old(self).inv(),
            fl <= old(self)@.frequency(ft as int) < fh <= ft <= 65536,
            old(self)@.nbits_total() + 24 <= u32::MAX,
        ensures
            final(self).inv(),
            final(self)@ == old(self)@.update(fl as int, fh as int, ft as int),
            final(self)@.nbits_total() <= old(self)@.nbits_total() + 24,
    {
        let r = self.rng / ft;
        proof {
            lemma_update_valid(self@, fl as int, fh as int, ft as int);
            lemma_symbol_interval(self.rng as int, fl as int, fh as int, ft as int);
        }
        let to = self.rng - r * (ft - fh);
        if fl > 0 {
            let from = self.rng - r * (ft - fl);
            self.narrow(from, to - from);
        } else {
            self.narrow(0, to);
        }
    }

    /// Decodes one of two outcomes; `true` has the probability `1 / 2^logp`.
    pub fn decode_bit_logp(&mut self, logp: u32) -> (bit: bool)
        requires
            old(self).inv(),
            1 <= logp <= 16,
            old(self)@.nbits_total() + 24 <= u32::MAX,
        ensures
            bit == old(self)@.next_bit(logp as nat),
            final(self).inv(),
            final(self)@ == old(self)@.take_bit(bit, logp as nat),
            final(self)@.nbits_total() <= old(self)@.nbits_total() + 24,
    {
        let s = shift_right(self.rng, logp);
        proof {
            lemma2_to64();
            lemma_pow2_strictly_increases(0, logp as nat);
            if logp < 16 {
                lemma_pow2_strictly_increases(logp as nat, 16);
            }
            let ft = pow2(logp as nat) as int;
            lemma_symbol_interval(self.rng as int, 0, ft - 1, ft);
            assert(s * (ft - (ft - 1)) == s) by (nonlinear_arith);
            assert(s * (ft - ft) == 0) by (nonlinear_arith);
        }
        if self.val < s {
            let from = self.rng - s;
            self.narrow(from, s);
            true
        } else {
            let to = self.rng - s;
            self.narrow(0, to);
            false
        }
    }

    /// Decodes a symbol of an inverse CDF table, which counts, out of `2^ftb`,
    /// the frequencies above each symbol and ends in zero.
    pub fn decode_icdf(&mut self, icdf: &[u8], ftb: u32) -> (k: usize)
        requires
            old(self).inv(),
            icdf@.len() > 0,
            icdf@.last() == 0,
            forall|i: int| 0 <= i < icdf@.len() ==> #[trigger] icdf@[i] <= pow2(ftb as nat),
            ftb <= 16,
            old(self)@.nbits_total() + 24 <= u32::MAX,
        ensures
            old(self)@.icdf_selects(k as int, icdf@, ftb as nat),
            final(self).inv(),
            final(self)@ == old(self)@.take_icdf(k as int, icdf@, ftb as nat),
            final(self)@.nbits_total() <= old(self)@.nbits_total() + 24,
    {
        let r = shift_right(self.rng, ftb);
        proof {
            lemma2_to64();
            lemma_pow2_pos(ftb as nat);
            if ftb < 16 {
                lemma_pow2_strictly_increases(ftb as nat, 16);
            }
            let ft = pow2(ftb as nat) as int;
            lemma_symbol_interval(self.rng as int, 0, 1, ft);
            assert forall|i: int| 0 <= i < icdf@.len() implies 0 <= r * (#[trigger] icdf@[i])
                <= self.rng by {
                let x = icdf@[i] as int;
                assert(0 <= r * x <= r * ft) by (nonlinear_arith)
                    requires
                        0 <= x <= ft,
                        r >= 0,
                ;
            }
            assert(r * 0 == 0);
        }
        let n = icdf.len();
        let mut k: usize = 0;
        let mut above = self.rng;
        let mut s = r * icdf[0] as u32;
        while self.val < s
            invariant
                k < n,
                n == icdf@.len(),
                icdf@.last() == 0,
                *self == *old(self),
                r == self.rng as int / pow2(ftb as nat) as int,
                s == r * icdf@[k as int],
                above == if k > 0 { r * icdf@[k - 1] } else { self.rng as int },
                self.val < above,
                forall|i: int|
                    0 <= i < icdf@.len() ==> 0 <= r * (#[trigger] icdf@[i]) <= self.rng,
                forall|j: int| 0 <= j < k ==> self.val < r * #[trigger] icdf@[j],
            decreases icdf@.len() - k,
        {
            proof {
                if k == n - 1 {
                    assert(icdf@[k as int] == 0);
                    assert(r * 0 == 0);
                }
            }
            above = s;
            k = k + 1;
            assert(0 <= r * icdf@[k as int] <= self.rng);
            s = r * icdf[k] as u32;
        }
        let from = self.rng - above;
        self.narrow(from, above - s);
        k
    }

    /// Reads the next byte from the end, zero past the front.
    fn read_byte_from_end(&mut self) -> (b: u8)
        requires
            old(self).end_offs <= old(self).data@.len(),
        ensures
            b == byte_at(old(self).data@, old(self).data@.len() - 1 - old(self).end_offs),
            final(self).end_offs == if old(self).end_offs < old(self).data@.len() {
                old(self).end_offs + 1
            } else {
                old(self).end_offs as int
            },
            *final(self) == (RangeDecoder { end_offs: final(self).end_offs, ..*old(self) }),
    {
        let n = self.data.len();
        if self.end_offs < n {
            self.end_offs = self.end_offs + 1;
            self.data[n - self.end_offs]
        } else {
            0
        }
    }

    /// Takes `bits` raw bits, low bit first.
    pub fn decode_raw_bits(&mut self, bits: u32) -> (value: u32)
        requires
            old(self).inv(),
            1 <= bits <= 24,
            old(self)@.nbits_total() + bits <= u32::MAX,
        ensures
            value == old(self)@.raw_peek(bits as nat),
            value < pow2(bits as nat),
            final(self).inv(),
            final(self)@ == old(self)@.raw_take(bits as nat),
    {
        let ghost taken = self@.raw_bits;
        let ghost x = whole(self.data@) / pow2(taken) as int;
        proof {
            lemma_pow2_pos(taken);
            lemma2_to64();
            lemma_head_bound(self.data@, self.data@.len());
        }
        if self.nend_bits < bits {
            while self.nend_bits <= 24
                invariant
                    self.nend_bits <= 32,
                    bits <= 24,
                    whole(self.data@) >= 0,
                    (taken + self.nend_bits) % 8 == 0,
                    self.end_offs == if (taken + self.nend_bits) / 8 < self.data@.len() {
                        (taken + self.nend_bits) / 8
                    } else {
                        self.data@.len() as int
                    },
                    self.end_window == x % pow2(self.nend_bits as nat) as int,
                    x == whole(self.data@) / pow2(taken) as int,
                    *self == (RangeDecoder {
                        end_offs: self.end_offs,
                        end_window: self.end_window,
                        nend_bits: self.nend_bits,
                        ..*old(self)
                    }),
                decreases 32 - self.nend_bits,
            {
                let ghost avail = self.nend_bits as nat;
                let ghost before = self.end_window;
                let b = self.read_byte_from_end();
                proof {
                    let q = ((taken + avail) / 8) as nat;
                    lemma_byte_from_end(self.data@, q);
                    assert(8 * q == taken + avail);
                    lemma_pow2_adds(taken, avail);
                    lemma_pow2_pos(taken);
                    lemma_pow2_pos(avail);
                    lemma_div_denominator(
                        whole(self.data@),
                        pow2(taken) as int,
                        pow2(avail) as int,
                    );
                    assert(b == (x / pow2(avail) as int) % 256);
                    lemma_low_bits_extend(x, avail, 8);
                    lemma2_to64();
                    lemma_pow2_adds(avail, 8);
                    lemma_mod_bound(x, pow2(avail + 8) as int);
                    if avail < 24 {
                        lemma_pow2_strictly_increases(avail + 8, 32);
                    }
                }
                self.end_window = self.end_window + shift_left(b as u32, self.nend_bits);
                self.nend_bits = self.nend_bits + 8;
            }
        }
        let ghost avail = self.nend_bits as nat;
        let unit = power_of_two(bits);
        let value = self.end_window % unit;
        proof {
            lemma_low_bits_split(x, bits as nat, (avail - bits) as nat);
            lemma_pow2_adds(taken, bits as nat);
            lemma_pow2_pos(bits as nat);
            lemma_div_denominator(whole(self.data@), pow2(taken) as int, pow2(bits as nat) as int);
        }
        self.end_window = self.end_window / unit;
        self.nend_bits = self.nend_bits - bits;
        self.nbits_total = self.nbits_total + bits;
        value
    }

    /// Decodes one of `ft` equally likely values; `None` when the coded value
    /// is out of range, which only a corrupt frame produces.
    pub fn decode_uint(&mut self, ft: u32) -> (t: Option<u32>)
        requires
            old(self).inv(),
            ft >= 2,
            old(self)@.nbits_total() + 48 <= u32::MAX,
        ensures
            match t {
                Some(v) => v == old(self)@.next_uint(ft as int) && v < ft,
                None => old(self)@.next_uint(ft as int) >= ft,
            },
            final(self).inv(),
            final(self)@ == old(self)@.take_uint(ft as int),
    {
        let ftb = ilog(ft - 1);
        proof {
            lemma_uint_parts(0, ft as int);
        }
        if ftb <= 8 {
            let t = self.decode(ft);
            self.update(t, t + 1, ft);
            Some(t)
        } else {
            let s = ftb - 8;
            let unit = power_of_two(s);
            let ft_hi = (ft - 1) / unit + 1;
            let hi = self.decode(ft_hi);
            proof {
                lemma_update_keeps_raw(self@, hi as int, hi + 1, ft_hi as int);
                lemma_update_bits(self@, hi as int, hi + 1, ft_hi as int);
            }
            self.update(hi, hi + 1, ft_hi);
            let lo = self.decode_raw_bits(s);
            proof {
                lemma_pow2_adds(s as nat, 8);
                lemma2_to64();
                if s < 24 {
                    lemma_pow2_strictly_increases(s as nat, 24);
                }
                assert(hi * unit <= 255 * unit) by (nonlinear_arith)
                    requires
                        hi <= 255,
                ;
            }
            let t = hi * unit + lo;
            if t < ft {
                Some(t)
            } else {
                None
            }
        }
    }

    /// Cuts the frame off after `len` bytes: what follows belongs to another
    /// stream. What the front has already read ahead stays as it is.
    pub fn shrink_storage(&mut self, len: usize)
        requires
            old(self).inv(),
            len <= old(self)@.data.len(),
            old(self)@.raw_bits == 0,
        ensures
            final(self).inv(),
            final(self)@ == (DecoderState {
                data: old(self)@.data.subrange(0, len as int),
                ..old(self)@
            }),
    {
        self.data = slice_subrange(self.data, 0, len);
        proof {
            lemma2_to64();
            let w = whole(self.data@);
            assert((w / 1) % 1 == 0);
        }
    }

    /// Upper bound on the whole number of bits consumed so far.
    pub fn tell(&self) -> (bits: u32)
        requires
            self.inv(),
        ensures
            bits == self@.nbits_total() - bit_length(self@.rng),
    {
        self.nbits_total - ilog(self.rng)
    }

    /// Like [`tell`](Self::tell), in eighths of a bit.
    pub fn tell_frac(&self) -> (eighths: u32)
        requires
            self.inv(),
            8 * self@.nbits_total() <= u32::MAX,
        ensures
            eighths == 8 * self@.nbits_total() - range_eighths(self@.rng),
    {
        tell_frac(self.nbits_total, self.rng)
    }

    /// The current range size; after the last symbol it equals the encoder's.
    pub fn range_size(&self) -> (rng: u32)
        requires
            self.inv(),
        ensures
            rng == self@.rng,
    {
        self.rng
    }
}

/// The low `a + b` bits: `a` low ones and `b` above them.
proof fn lemma_low_bits_extend(x: int, a: nat, b: nat)
    ensures
        x % pow2(a + b) as int == x % pow2(a) as int + ((x / pow2(a) as int) % pow2(b) as int)
            * pow2(a),
{
    lemma_pow2_adds(a, b);
    lemma_pow2_pos(a);
    lemma_pow2_pos(b);
    let p = pow2(a) as int;
    let q = pow2(b) as int;
    let hi = x / p;
    let lo = x % p;
    lemma_fundamental_div_mod(x, p);
    lemma_fundamental_div_mod(hi, q);
    lemma_mod_bound(x, p);
    lemma_mod_bound(hi, q);
    let m = hi % q;
    assert(x == (hi / q) * (p * q) + (m * p + lo)) by (nonlinear_arith)
        requires
            x == p * hi + lo,
            hi == q * (hi / q) + m,
    ;
    assert(0 <= m * p + lo < p * q) by (nonlinear_arith)
        requires
            0 <= m < q,
            0 <= lo < p,
    ;
    lemma_fundamental_div_mod_converse(x, p * q, hi / q, m * p + lo);
}

/// Taking `a` bits off the low `a + b` bits.
proof fn lemma_low_bits_split(x: int, a: nat, b: nat)
    ensures
        (x % pow2(a + b) as int) % pow2(a) as int == x % pow2(a) as int,
        (x % pow2(a + b) as int) / pow2(a) as int == (x / pow2(a) as int) % pow2(b) as int,
{
    lemma_low_bits_extend(x, a, b);
    lemma_pow2_pos(a);
    let p = pow2(a) as int;
    let m = (x / p) % pow2(b) as int;
    lemma_mod_bound(x, p);
    lemma_fundamental_div_mod_converse(x % pow2(a + b) as int, p, m, x % p);
}

/// Taking a symbol consumes at most 24 bits.
proof fn lemma_update_bits(dec: DecoderState, fl: int, fh: int, ft: int)
    requires
        dec.valid(),
        0 <= fl < fh <= ft <= dec.rng,
    ensures
        dec.update(fl, fh, ft).count <= dec.count + 3,
{
    lemma_symbol_interval(dec.rng, fl, fh, ft);
    reveal_with_fuel(DecoderState::normalize, 4);
}

} // verus!
