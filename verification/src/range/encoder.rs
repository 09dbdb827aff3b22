//! The range encoder.

use super::digits::{
    head, lemma_carry, lemma_head_agree, lemma_head_raise, lemma_head_zeros, lemma_pow2_byte,
    lemma_tail_value, lemma_whole_push, tail_value, whole,
};
use super::model::{
    icdf_codable, law_terminated_frame_carries, lemma_encode_bits, lemma_end_bits,
    lemma_front_value, lemma_icdf_bounds, lemma_narrow_bits, lemma_narrow_valid,
    lemma_raw_append, lemma_round_up, lemma_round_up_shift, lemma_symbol_interval,
    lemma_uint_parts, round_up, EncoderState,
};
use super::{
    bit_length, ilog, lemma_bit_length, range_eighths, tell_frac, CODE_BITS, CODE_BOT, CODE_TOP,
    SYM_BITS, SYM_MAX, WINDOW_SIZE,
};
use vstd::arithmetic::div_mod::lemma_fundamental_div_mod;
use vstd::arithmetic::power2::{
    lemma2_to64, lemma_pow2_adds, lemma_pow2_pos, lemma_pow2_strictly_increases,
    lemma_pow2_unfold, pow2,
};
use vstd::bits::{lemma_u32_shl_is_mul, lemma_u32_shr_is_div};
use vstd::prelude::*;

verus! {

/// The encoder ran out of buffer space: range-coder data growing from the
/// front and raw bits growing from the back collided inside the fixed-size
/// frame buffer.
#[derive(Debug, Clone, Copy, PartialEq, Eq, Structural)]
pub struct RangeEncoderError;

impl RangeEncoderError {
    /// The message shown to users.
    pub fn message(&self) -> (text: &'static str)
        ensures
            text@ == "range encoder overflowed its frame buffer"@,
    {
        "range encoder overflowed its frame buffer"
    }
}

/// The Opus range encoder.
///
/// It writes into a frame buffer of fixed size: range-coded symbols grow from
/// the front, raw bits grow from the back, and `finalize` terminates the
/// stream. Bytes that a later carry could still change are held back in `rem`
/// and `ext`.
pub struct RangeEncoder {
    buf: Vec<u8>,
    /// Front bytes written.
    offs: usize,
    /// Bytes written from the end.
    end_offs: usize,
    /// Raw bits awaiting flush to the end of the buffer.
    end_window: u32,
    /// Number of valid bits in `end_window`.
    nend_bits: u32,
    /// Low end of the current range, without what was already output.
    val: u32,
    /// Size of the current range.
    rng: u32,
    /// Buffered output byte, or `None` before the first one.
    rem: Option<u8>,
    /// Count of buffered bytes 255, which propagate carries.
    ext: u32,
    /// Upper bound on the whole bits produced so far.
    nbits_total: u32,
    /// Sticky overflow flag.
    error: bool,
    /// The front bytes as they would be without a size limit.
    front: Ghost<Seq<u8>>,
    /// The bytes from the end, last byte first, without a size limit.
    tail: Ghost<Seq<u8>>,
}

impl View for RangeEncoder {
    type V = EncoderState;

    closed spec fn view(&self) -> EncoderState {
        EncoderState {
            low: whole(self.digits()) * CODE_TOP + self.val,
            rng: self.rng as int,
            count: self.digits().len(),
            raw: tail_value(self.tail@) + self.end_window * pow2(8 * self.tail@.len()),
            raw_bits: 8 * self.tail@.len() + self.nend_bits as nat,
        }
    }
}

impl Clone for RangeEncoder {
    fn clone(&self) -> (copy: Self)
        ensures
            copy@ == self@,
            copy.size() == self.size(),
            self.inv() ==> copy.inv(),
    {
        let buf = self.buf.clone();
        assert(buf@ =~= self.buf@);
        let copy = RangeEncoder {
            buf,
            offs: self.offs,
            end_offs: self.end_offs,
            end_window: self.end_window,
            nend_bits: self.nend_bits,
            val: self.val,
            rng: self.rng,
            rem: self.rem,
            ext: self.ext,
            nbits_total: self.nbits_total,
            error: self.error,
            front: Ghost(self.front@),
            tail: Ghost(self.tail@),
        };
        assert(copy.digits() == self.digits());
        copy
    }
}

impl RangeEncoder {
    /// The size of the frame buffer.
    pub closed spec fn size(&self) -> nat {
        self.buf@.len()
    }

    /// Everything output so far, including the bytes held back.
    spec fn digits(&self) -> Seq<u8> {
        self.front@ + self.held()
    }

    /// The bytes held back for a carry.
    spec fn held(&self) -> Seq<u8> {
        let ones = Seq::new(self.ext as nat, |i: int| 255u8);
        match self.rem {
            Some(b) => seq![b] + ones,
            None => ones,
        }
    }

    /// The buffer agrees with what was output, as far as it fits.
    spec fn stored(&self) -> bool {
        &&& self.offs + self.end_offs <= self.buf@.len()
        &&& self.error ==> self.front@.len() + self.tail@.len() > self.buf@.len()
        &&& !self.error ==> {
            &&& self.offs == self.front@.len()
            &&& self.end_offs == self.tail@.len()
            &&& forall|i: int| 0 <= i < self.offs ==> self.buf@[i] == self.front@[i]
            &&& forall|j: int|
                0 <= j < self.end_offs ==> self.buf@[self.buf@.len() - 1 - j] == self.tail@[j]
        }
    }

    /// The counters agree with what was output.
    spec fn counted(&self) -> bool {
        &&& self.rem is None ==> self.front@.len() == 0
        &&& self.nend_bits <= 32
        &&& self.end_window < pow2(self.nend_bits as nat)
        &&& self.nbits_total == 33 + 8 * self.digits().len() + 8 * self.tail@.len()
            + self.nend_bits
    }

    /// No carry can pass the bytes held back.
    spec fn carry_safe(&self) -> bool {
        &&& self.val + self.rng <= u32::MAX
        &&& (self.rem is None || self.rem == Some(255u8)) ==> self.val + self.rng <= CODE_TOP
    }

    /// The encoder's invariant.
    pub closed spec fn inv(&self) -> bool {
        &&& self.stored()
        &&& self.counted()
        &&& self.carry_safe()
        &&& self@.valid()
    }

    /// The two encoders differ at most in the buffer and what it stores.
    spec fn same_registers(&self, other: &Self) -> bool {
        &&& self.end_window == other.end_window
        &&& self.nend_bits == other.nend_bits
        &&& self.val == other.val
        &&& self.rng == other.rng
        &&& self.nbits_total == other.nbits_total
        &&& self.buf@.len() == other.buf@.len()
    }

    /// Writes one byte in the front direction.
    fn write_byte(&mut self, b: u8)
        requires
            old(self).stored(),
        ensures
            final(self).stored(),
            final(self).front@ == old(self).front@.push(b),
            final(self).tail@ == old(self).tail@,
            final(self).rem == old(self).rem,
            final(self).ext == old(self).ext,
            final(self).same_registers(old(self)),
    {
        let size = self.buf.len();
        if self.offs + self.end_offs >= size {
            self.error = true;
        } else {
            self.buf[self.offs] = b;
            self.offs = self.offs + 1;
        }
        self.front = Ghost(self.front@.push(b));
    }

    /// Writes one byte in the back direction.
    fn write_byte_at_end(&mut self, b: u8)
        requires
            old(self).stored(),
        ensures
            final(self).stored(),
            final(self).front@ == old(self).front@,
            final(self).tail@ == old(self).tail@.push(b),
            final(self).rem == old(self).rem,
            final(self).ext == old(self).ext,
            final(self).same_registers(old(self)),
    {
        let size = self.buf.len();
        if self.offs + self.end_offs >= size {
            self.error = true;
        } else {
            self.end_offs = self.end_offs + 1;
            let at = size - self.end_offs;
            self.buf[at] = b;
        }
        self.tail = Ghost(self.tail@.push(b));
    }

    /// Carry propagation and output buffering: takes eight data bits and a
    /// carry bit. A data byte 255 cannot be written yet, because a later carry
    /// would pass through it, so it is only counted; anything else releases
    /// the bytes held back, with the carry applied.
    fn carry_out(&mut self, c: u32)
        requires
            old(self).stored(),
            c < 512,
            c >= 256 ==> old(self).rem is Some && old(self).rem != Some(255u8),
            old(self).ext < u32::MAX,
            old(self).rem is None ==> old(self).front@.len() == 0,
        ensures
            final(self).stored(),
            final(self).tail@ == old(self).tail@,
            final(self).same_registers(old(self)),
            final(self).rem is None ==> final(self).front@.len() == 0,
            final(self).rem == if c == SYM_MAX {
                old(self).rem
            } else {
                Some((c % 256) as u8)
            },
            final(self).digits().len() == old(self).digits().len() + 1,
            whole(final(self).digits()) == whole(old(self).digits()) * 256 + c,
            final(self).ext <= old(self).ext + 1,
            c < SYM_MAX ==> final(self).front@ == old(self).digits(),
    {
        if c == SYM_MAX {
            self.ext = self.ext + 1;
            proof {
                assert(self.digits() =~= old(self).digits().push(255u8));
                lemma_whole_push(old(self).digits(), 255u8);
            }
        } else {
            let carry: u8 = if c >= 256 { 1 } else { 0 };
            let ghost start = self.front@;
            let ghost fill: u8 = if c >= 256 { 0 } else { 255 };
            let ghost lead: Seq<u8> = match self.rem {
                Some(b) => seq![(b + carry) as u8],
                None => seq![],
            };
            if let Some(rem) = self.rem {
                self.write_byte(rem + carry);
            }
            assert(self.front@ =~= start + lead);
            let sym: u8 = if c >= 256 { 0 } else { 255 };
            let total = self.ext;
            let mut done: u32 = 0;
            while done < total
                invariant
                    self.stored(),
                    done <= total,
                    sym == fill,
                    self.front@ == start + lead + Seq::new(done as nat, |i: int| fill),
                    self.tail@ == old(self).tail@,
                    self.same_registers(old(self)),
                decreases total - done,
            {
                self.write_byte(sym);
                done = done + 1;
                assert(self.front@ =~= start + lead + Seq::new(done as nat, |i: int| fill));
            }
            self.ext = 0;
            self.rem = Some((c % 256) as u8);
            proof {
                let before = old(self).digits();
                let released = start + lead + Seq::new(total as nat, |i: int| fill);
                assert(self.digits() =~= released.push((c % 256) as u8));
                lemma_whole_push(released, (c % 256) as u8);
                assert(released.len() == before.len());
                if c >= 256 {
                    let b = old(self).rem->0;
                    lemma_carry(start, b, total as nat);
                    assert(before =~= start.push(b) + Seq::new(total as nat, |i: int| 255u8));
                    assert(released =~= start.push((b + 1) as u8) + Seq::new(
                        total as nat,
                        |i: int| 0u8,
                    ));
                } else {
                    assert(released =~= before);
                }
            }
        }
    }

    /// Renormalization: restores a range above `CODE_BOT`, emitting the top
    /// nine bits of the low register in each step.
    fn normalize(&mut self)
        requires
            old(self).stored(),
            old(self).counted(),
            old(self).carry_safe(),
            0 < old(self).rng <= CODE_TOP,
            old(self).nbits_total + 24 <= u32::MAX,
        ensures
            final(self).stored(),
            final(self).counted(),
            final(self).carry_safe(),
            final(self)@ == old(self)@.normalize(),
            final(self).size() == old(self).size(),
    {
        while self.rng <= CODE_BOT
            invariant
                self.stored(),
                self.counted(),
                self.carry_safe(),
                0 < self.rng <= CODE_TOP,
                self@.normalize() == old(self)@.normalize(),
                self.size() == old(self).size(),
                self.rng <= CODE_BOT ==> self.nbits_total + 8 <= u32::MAX,
                self.rng < 0x1_0000 ==> self.nbits_total + 16 <= u32::MAX,
                self.rng < 0x100 ==> self.nbits_total + 24 <= u32::MAX,
            decreases CODE_TOP - self.rng,
        {
            let ghost before = *self;
            let c = self.val / 0x80_0000;
            self.carry_out(c);
            self.val = (self.val % 0x80_0000) * 256;
            self.rng = self.rng * 256;
            self.nbits_total = self.nbits_total + SYM_BITS;
            proof {
                let t = whole(before.digits());
                let v = before.val as int;
                assert((t * 256 + c) * CODE_TOP + (v % 0x80_0000) * 256 == (t * CODE_TOP + v) * 256)
                    by (nonlinear_arith)
                    requires
                        v == 0x80_0000 * c + v % 0x80_0000,
                        CODE_TOP == 0x8000_0000u32,
                ;
            }
        }
    }

    /// Narrows the range to `size` values starting `offset` above its low end.
    fn narrow(&mut self, offset: u32, size: u32)
        requires
            old(self).inv(),
            0 < size,
            offset + size <= old(self)@.rng,
            old(self)@.nbits_total() + 24 <= u32::MAX,
        ensures
            final(self).inv(),
            final(self).size() == old(self).size(),
            final(self)@ == old(self)@.narrow(offset as int, size as int),
            final(self)@.nbits_total() <= old(self)@.nbits_total() + 24,
    {
        proof {
            lemma_narrow_valid(self@, offset as int, size as int);
            lemma_narrow_bits(self@, offset as int, size as int);
        }
        let ghost before = *self;
        self.val = self.val + offset;
        self.rng = size;
        proof {
            assert(self.digits() == before.digits());
            assert(self@ == (EncoderState {
                low: before@.low + offset,
                rng: size as int,
                ..before@
            }));
        }
        self.normalize();
    }

    /// The state of a coder that keeps its invariant is valid.
    pub proof fn lemma_valid(&self)
        requires
            self.inv(),
        ensures
            self@.valid(),
    {
    }

    /// Creates an encoder for a frame of exactly `size` bytes.
    pub fn new(size: usize) -> (enc: Self)
        ensures
            enc.inv(),
            enc@ == EncoderState::initial(),
            enc.size() == size,
    {
        let enc = RangeEncoder {
            buf: vec![0; size],
            offs: 0,
            end_offs: 0,
            end_window: 0,
            nend_bits: 0,
            val: 0,
            rng: CODE_TOP,
            rem: None,
            ext: 0,
            nbits_total: 33,
            error: false,
            front: Ghost(Seq::empty()),
            tail: Ghost(Seq::empty()),
        };
        proof {
            lemma2_to64();
            assert(enc.digits() =~= Seq::<u8>::empty());
            assert(0 * pow2(0) == 0) by (nonlinear_arith);
        }
        enc
    }

    /// Encodes a symbol that owns the frequencies `fl..fh` out of `ft`.
    pub fn encode(&mut self, fl: u32, fh: u32, ft: u32)
        requires
            old(self).inv(),
            fl < fh <= ft <= 65535,
            old(self)@.nbits_total() + 24 <= u32::MAX,
        ensures
            final(self).inv(),
            final(self).size() == old(self).size(),
            final(self)@ == old(self)@.encode(fl as int, fh as int, ft as int),
            final(self)@.nbits_total() <= old(self)@.nbits_total() + 24,
    {
        let r = self.rng / ft;
        proof {
            lemma_symbol_interval(self.rng as int, fl as int, fh as int, ft as int);
            lemma_part(r as int, (ft - fl) as int, ft as int);
            lemma_part(r as int, (ft - fh) as int, ft as int);
        }
        let to = self.rng - r * (ft - fh);
        if fl > 0 {
            let from = self.rng - r * (ft - fl);
            self.narrow(from, to - from);
        } else {
            self.narrow(0, to);
        }
    }

    /// Like [`encode`](Self::encode) with a total of `2^ftb`.
    pub fn encode_bin(&mut self, fl: u32, fh: u32, ftb: u32)
        requires
            old(self).inv(),
            ftb <= 16,
            fl < fh <= pow2(ftb as nat),
            old(self)@.nbits_total() + 24 <= u32::MAX,
        ensures
            final(self).inv(),
            final(self).size() == old(self).size(),
            final(self)@ == old(self)@.encode(fl as int, fh as int, pow2(ftb as nat) as int),
            final(self)@.nbits_total() <= old(self)@.nbits_total() + 24,
    {
        let ft = power_of_two(ftb);
        let r = shift_right(self.rng, ftb);
        proof {
            lemma2_to64();
            if ftb < 16 {
                lemma_pow2_strictly_increases(ftb as nat, 16);
            }
            lemma_symbol_interval(self.rng as int, fl as int, fh as int, ft as int);
            lemma_part(r as int, (ft - fl) as int, ft as int);
            lemma_part(r as int, (ft - fh) as int, ft as int);
        }
        let to = self.rng - r * (ft - fh);
        if fl > 0 {
            let from = self.rng - r * (ft - fl);
            self.narrow(from, to - from);
        } else {
            self.narrow(0, to);
        }
    }

    /// Encodes one of two outcomes; `true` has the probability `1 / 2^logp`.
    pub fn encode_bit_logp(&mut self, bit: bool, logp: u32)
        requires
            old(self).inv(),
            logp < 32,
            bit ==> pow2(logp as nat) <= old(self)@.rng,
            !bit ==> logp >= 1,
            old(self)@.nbits_total() + 24 <= u32::MAX,
        ensures
            final(self).inv(),
            final(self).size() == old(self).size(),
            final(self)@ == old(self)@.encode_bit(bit, logp as nat),
            final(self)@.nbits_total() <= old(self)@.nbits_total() + 24,
    {
        let r = self.rng;
        let s = shift_right(r, logp);
        proof {
            lemma_pow2_pos(logp as nat);
            lemma2_to64();
            let ft = pow2(logp as nat) as int;
            let rng = r as int;
            lemma_fundamental_div_mod(rng, ft);
            if bit {
                assert(s >= 1) by (nonlinear_arith)
                    requires
                        0 < ft <= rng,
                        rng == ft * s + rng % ft,
                        0 <= rng % ft < ft,
                ;
                if logp == 0 {
                    assert(ft == 1);
                    assert(s == rng) by (nonlinear_arith)
                        requires
                            ft == 1,
                            rng == ft * s + rng % ft,
                            0 <= rng % ft < ft,
                    ;
                }
            } else {
                lemma_pow2_unfold(logp as nat);
                lemma_pow2_pos((logp - 1) as nat);
                assert(s < rng) by (nonlinear_arith)
                    requires
                        ft >= 2,
                        rng > 0,
                        rng == ft * s + rng % ft,
                        0 <= rng % ft < ft,
                ;
            }
            assert(s * (ft - (ft - 1)) == s) by (nonlinear_arith);
            assert(s * (ft - ft) == 0) by (nonlinear_arith);
            assert(0 <= s <= rng) by (nonlinear_arith)
                requires
                    ft >= 1,
                    rng > 0,
                    rng == ft * s + rng % ft,
                    0 <= rng % ft < ft,
            ;
        }
        if bit {
            self.narrow(r - s, s);
        } else {
            self.narrow(0, r - s);
        }
    }

    /// Encodes symbol `k` of an inverse CDF table, which counts, out of
    /// `2^ftb`, the frequencies above each symbol.
    pub fn encode_icdf(&mut self, k: usize, icdf: &[u8], ftb: u32)
        requires
            old(self).inv(),
            icdf_codable(icdf@, k as int, ftb as nat),
            old(self)@.nbits_total() + 24 <= u32::MAX,
        ensures
            final(self).inv(),
            final(self).size() == old(self).size(),
            final(self)@ == old(self)@.encode_icdf(k as int, icdf@, ftb as nat),
            final(self)@.nbits_total() <= old(self)@.nbits_total() + 24,
    {
        let r = shift_right(self.rng, ftb);
        proof {
            lemma_icdf_bounds(self@, k as int, icdf@, ftb as nat);
        }
        if k > 0 {
            let from = self.rng - r * icdf[k - 1] as u32;
            let to = self.rng - r * icdf[k] as u32;
            self.narrow(from, to - from);
        } else {
            let to = self.rng - r * icdf[k] as u32;
            self.narrow(0, to);
        }
    }

    /// Appends `bits` raw bits, low bit first, at the end of the frame.
    pub fn encode_raw_bits(&mut self, value: u32, bits: u32)
        requires
            old(self).inv(),
            1 <= bits <= 24,
            value < pow2(bits as nat),
            old(self)@.nbits_total() + bits <= u32::MAX,
        ensures
            final(self).inv(),
            final(self).size() == old(self).size(),
            final(self)@ == old(self)@.raw_append(value as int, bits as nat),
    {
        if self.nend_bits + bits > WINDOW_SIZE {
            self.flush_window();
        }
        proof {
            let nb = self.nend_bits as nat;
            let p = pow2(nb) as int;
            lemma_raw_append(self.end_window as int, nb, value as int, bits as nat);
            lemma2_to64();
            if nb + bits < 32 {
                lemma_pow2_strictly_increases(nb + bits as nat, 32);
            }
            lemma_raw_append(self@.raw, self@.raw_bits, value as int, bits as nat);
            lemma_pow2_adds(8 * self.tail@.len(), nb);
            let t = pow2(8 * self.tail@.len()) as int;
            let w = self.end_window as int;
            let v = value as int;
            assert((w + v * p) * t == w * t + v * (t * p)) by (nonlinear_arith);
        }
        let ghost before = *self;
        self.end_window = self.end_window + shift_left(value, self.nend_bits);
        self.nend_bits = self.nend_bits + bits;
        self.nbits_total = self.nbits_total + bits;
        assert(self.digits() == before.digits());
    }

    /// Moves whole bytes of the raw-bits window to the end of the buffer.
    fn flush_window(&mut self)
        requires
            old(self).stored(),
            old(self).nend_bits <= 32,
            old(self).end_window < pow2(old(self).nend_bits as nat),
        ensures
            final(self).stored(),
            final(self).nend_bits < 8,
            final(self).end_window < pow2(final(self).nend_bits as nat),
            final(self).front@ == old(self).front@,
            final(self).rem == old(self).rem,
            final(self).ext == old(self).ext,
            final(self).val == old(self).val,
            final(self).rng == old(self).rng,
            final(self).nbits_total == old(self).nbits_total,
            final(self).size() == old(self).size(),
            8 * final(self).tail@.len() + final(self).nend_bits == 8 * old(self).tail@.len()
                + old(self).nend_bits,
            final(self)@.raw == old(self)@.raw,
    {
        while self.nend_bits >= SYM_BITS
            invariant
                self.stored(),
                self.nend_bits <= 32,
                self.end_window < pow2(self.nend_bits as nat),
                self.front@ == old(self).front@,
                self.rem == old(self).rem,
                self.ext == old(self).ext,
                self.val == old(self).val,
                self.rng == old(self).rng,
                self.nbits_total == old(self).nbits_total,
                self.size() == old(self).size(),
                8 * self.tail@.len() + self.nend_bits == 8 * old(self).tail@.len()
                    + old(self).nend_bits,
                self@.raw == old(self)@.raw,
            decreases self.nend_bits,
        {
            let ghost before = *self;
            let b = (self.end_window % 256) as u8;
            self.write_byte_at_end(b);
            self.end_window = self.end_window / 256;
            self.nend_bits = self.nend_bits - SYM_BITS;
            proof {
                let len = before.tail@.len();
                lemma_pow2_byte(len);
                let p = pow2(8 * len) as int;
                let w = before.end_window as int;
                assert(self.tail@.drop_last() =~= before.tail@);
                assert((w % 256) * p + (w / 256) * (p * 256) == w * p) by (nonlinear_arith)
                    requires
                        w == 256 * (w / 256) + w % 256,
                ;
                lemma2_to64();
                lemma_pow2_adds(self.nend_bits as nat, 8);
            }
        }
    }

    /// Encodes `t`, one of `ft` equally likely values.
    pub fn encode_uint(&mut self, t: u32, ft: u32)
        requires
            old(self).inv(),
            ft >= 2,
            t < ft,
            old(self)@.nbits_total() + 48 <= u32::MAX,
        ensures
            final(self).inv(),
            final(self).size() == old(self).size(),
            final(self)@ == old(self)@.encode_uint(t as int, ft as int),
    {
        let ftb = ilog(ft - 1);
        proof {
            lemma_uint_parts(t as int, ft as int);
        }
        if ftb <= 8 {
            self.encode(t, t + 1, ft);
        } else {
            let s = ftb - 8;
            let unit = power_of_two(s);
            let ft_hi = (ft - 1) / unit + 1;
            let t_hi = t / unit;
            proof {
                lemma_encode_bits(self@, t_hi as int, t_hi + 1, ft_hi as int);
            }
            self.encode(t_hi, t_hi + 1, ft_hi);
            self.encode_raw_bits(t % unit, s);
        }
    }

    /// Upper bound on the whole number of bits produced so far.
    pub fn tell(&self) -> (bits: u32)
        requires
            self.inv(),
        ensures
            bits == self@.nbits_total() - bit_length(self@.rng),
            bits >= 1,
    {
        self.nbits_total - ilog(self.rng)
    }

    /// Like [`tell`](Self::tell), in eighths of a bit.
    pub fn tell_frac(&self) -> (eighths: u32)
        requires
            self.inv(),
            8 * self@.nbits_total() <= u32::MAX,
        ensures
            eighths == 8 * self@.nbits_total() - range_eighths(self@.rng),
    {
        tell_frac(self.nbits_total, self.rng)
    }

    /// The current range size.
    pub fn range_size(&self) -> (rng: u32)
        requires
            self.inv(),
        ensures
            rng == self@.rng,
            CODE_BOT < rng <= CODE_TOP,
    {
        self.rng
    }

    /// Terminates the stream and returns the finished frame.
    ///
    /// It chooses the value inside the final range with the most trailing
    /// zeros, so that the bits after it can hold anything, flushes all carries
    /// and the raw-bits window, and zero-pads the gap between the two regions.
    ///
    /// # Errors
    ///
    /// [`RangeEncoderError`] if the front and back regions collide.
    #[verifier::spinoff_prover]
    #[verifier::rlimit(40)]
    pub fn finalize(self) -> (frame: Result<Vec<u8>, RangeEncoderError>)
        requires
            self.inv(),
        ensures
            frame is Ok <==> self@.fits(self.size()),
            frame matches Ok(buf) ==> {
                &&& buf@.len() == self.size()
                &&& whole(buf@) == self@.frame_value(self.size())
                &&& self@.carried_by(buf@)
            },
    {
        let mut enc = self;
        let ghost start = self@;
        let size = enc.buf.len();
        let bl = ilog(enc.rng);
        proof {
            lemma2_to64();
            lemma_end_bits(start);
            lemma_bit_length(start.rng);
            lemma_round_up_shift(enc.val as int, whole(enc.digits()), bl as nat);
            lemma_round_up_shift(enc.val as int, whole(enc.digits()), (bl - 1) as nat);
            lemma_round_up(enc.val as int, pow2((bl - 1) as nat) as int);
            lemma_round_up(enc.val as int, pow2((bl - 2) as nat) as int);
            lemma_pow2_unfold((bl - 1) as nat);
        }
        // Bits that must be output to disambiguate the final range.
        let mut l: u32 = CODE_BITS - bl;
        let mut unit = power_of_two(bl - 1);
        let mut end = ((enc.val + (unit - 1)) / unit) * unit;
        if (end - enc.val) + (unit - 1) >= enc.rng {
            // The free bits below the rounded value would leave the range.
            l = l + 1;
            unit = unit / 2;
            end = ((enc.val + (unit - 1)) / unit) * unit;
        }
        let ghost e = round_up(start.low, unit as int);
        let bytes = (l + 7) / 8;
        let spare = bytes * 8 - l;
        proof {
            assert(l == start.end_bits());
            assert(unit == pow2((31 - l) as nat));
            assert(whole(enc.digits()) * CODE_TOP + end == e);
            assert(end + unit <= enc.val + enc.rng);
            lemma_front_value(start);
            assert(1 * e == e);
            assert(bytes == 0 ==> end < CODE_TOP);
        }
        let mut k: u32 = 0;
        while k < bytes
            invariant
                k <= bytes <= 2,
                enc.stored(),
                enc.counted() || k > 0,
                enc.rem is None ==> enc.front@.len() == 0,
                enc.ext <= 0x2000_0000 + k,
                enc.digits().len() == start.count + k,
                whole(enc.digits()) * CODE_TOP + end == pow2(8 * k as nat) * e,
                k > 0 || bytes == 0 ==> end < CODE_TOP,
                end >= CODE_TOP ==> enc.rem is Some && enc.rem != Some(255u8),
                enc.tail@ == self.tail@,
                enc.same_registers(&self),
            decreases bytes - k,
        {
            let ghost before = enc;
            let ghost last = end;
            let c = end / 0x80_0000;
            enc.carry_out(c);
            end = (end % 0x80_0000) * 256;
            k = k + 1;
            proof {
                let t = whole(before.digits());
                let v = last as int;
                assert((t * 256 + c) * CODE_TOP + (v % 0x80_0000) * 256 == (t * CODE_TOP + v) * 256)
                    by (nonlinear_arith)
                    requires
                        v == 0x80_0000 * c + v % 0x80_0000,
                        CODE_TOP == 0x8000_0000u32,
                ;
                lemma_pow2_byte((k - 1) as nat);
                let p = pow2(8 * (k - 1) as nat) as int;
                assert((p * e) * 256 == (p * 256) * e) by (nonlinear_arith);
            }
        }
        proof {
            let t = whole(enc.digits());
            let fv = start.front_value();
            assert(t == fv) by (nonlinear_arith)
                requires
                    t * CODE_TOP + end == CODE_TOP * fv,
                    0 <= end < CODE_TOP,
                    CODE_TOP == 0x8000_0000u32,
            ;
        }
        // Release the bytes held back for a carry.
        if enc.rem.is_some() || enc.ext > 0 {
            enc.carry_out(0);
        } else {
            assert(enc.digits() =~= enc.front@);
        }
        let ghost front = enc.front@;
        assert(front.len() == start.front_bytes());
        assert(whole(front) == start.front_value());
        enc.flush_window();
        let ghost tail = enc.tail@;
        proof {
            assert(enc@.raw == start.raw);
            assert(tail.len() == start.raw_bits / 8);
            assert(enc.nend_bits == start.raw_bits % 8);
        }
        if enc.error {
            return Err(RangeEncoderError);
        }
        // Zero the gap between the two regions.
        let offs = enc.offs;
        let end_offs = enc.end_offs;
        let nend_bits = enc.nend_bits;
        let end_window = enc.end_window;
        let mut buf = enc.buf;
        let gap_end = size - end_offs;
        let mut i = offs;
        while i < gap_end
            invariant
                offs <= i <= gap_end,
                gap_end == size - end_offs,
                buf@.len() == size,
                offs == front.len(),
                end_offs == tail.len(),
                forall|m: int| 0 <= m < offs ==> buf@[m] == front[m],
                forall|m: int| offs <= m < i ==> buf@[m] == 0,
                forall|j: int| 0 <= j < end_offs ==> buf@[size - 1 - j] == tail[j],
            decreases gap_end - i,
        {
            buf[i] = 0;
            i = i + 1;
        }
        let ghost padded = buf@;
        proof {
            let f = front.len();
            let b = tail.len();
            let gap = (size - b - f) as nat;
            lemma_tail_value(padded, tail);
            lemma_head_zeros(padded, f, gap);
            lemma_head_agree(padded, front, f);
            lemma_pow2_adds(8 * gap, 8 * b);
            let fv = start.front_value();
            let p = pow2(8 * gap) as int;
            let q = pow2(8 * b) as int;
            assert((fv * p) * q == fv * (p * q)) by (nonlinear_arith);
            assert(8 * gap + 8 * b == 8 * (size - f) as nat);
            assert(whole(padded) == fv * pow2(8 * (size - f) as nat) + tail_value(tail));
        }
        if nend_bits > 0 {
            if end_offs >= size {
                return Err(RangeEncoderError);
            }
            if offs + end_offs >= size && spare < nend_bits {
                return Err(RangeEncoderError);
            }
            let at = size - end_offs - 1;
            proof {
                if nend_bits < 7 {
                    lemma_pow2_strictly_increases(nend_bits as nat, 7);
                }
                if offs + end_offs >= size {
                    if nend_bits < spare {
                        lemma_pow2_strictly_increases(nend_bits as nat, spare as nat);
                    }
                    lemma_last_byte_spare(front, start.front_value(), spare as nat);
                    assert(padded[at as int] == front[front.len() - 1]);
                } else {
                    assert(padded[at as int] == 0);
                }
                let b = (padded[at as int] + end_window) as u8;
                lemma_head_raise(padded, at as int, b, size as nat);
                assert((size - 1 - at) as nat == tail.len());
            }
            buf[at] = buf[at] + end_window as u8;
        } else {
            proof {
                let q = pow2(8 * tail.len()) as int;
                assert(0 * q == 0);
            }
        }
        proof {
            assert(whole(buf@) == start.frame_value(size as nat));
            law_terminated_frame_carries(start, buf@);
        }
        Ok(buf)
    }
}

/// Where a number leaves its low bits zero, so does its last byte.
proof fn lemma_last_byte_spare(front: Seq<u8>, value: int, spare: nat)
    requires
        front.len() > 0,
        whole(front) == value,
        spare <= 7,
        value % pow2(spare) as int == 0,
    ensures
        front[front.len() - 1] + pow2(spare) <= 256,
{
    lemma2_to64();
    lemma_pow2_pos(spare);
    lemma_pow2_adds(spare, (8 - spare) as nat);
    let sp = pow2(spare) as int;
    let d = pow2((8 - spare) as nat) as int;
    let h = head(front, (front.len() - 1) as nat);
    let b = front[front.len() - 1] as int;
    let q = value / sp;
    lemma_fundamental_div_mod(value, sp);
    assert(b == sp * (q - h * d)) by (nonlinear_arith)
        requires
            sp * q == h * 256 + b,
            sp * d == 256,
    ;
    let m = q - h * d;
    assert(m <= d - 1) by (nonlinear_arith)
        requires
            sp * m < 256,
            sp * d == 256,
            sp > 0,
    ;
    assert(sp * m + sp <= 256) by (nonlinear_arith)
        requires
            m <= d - 1,
            sp * d == 256,
            sp > 0,
    ;
}

/// A part of a product is no larger than the product.
proof fn lemma_part(r: int, part: int, total: int)
    requires
        r >= 0,
        0 <= part <= total,
    ensures
        0 <= r * part <= r * total,
{
    assert(0 <= r * part <= r * total) by (nonlinear_arith)
        requires
            r >= 0,
            0 <= part <= total,
    ;
}

/// `2^n`.
pub(crate) fn power_of_two(n: u32) -> (p: u32)
    requires
        n < 32,
    ensures
        p == pow2(n as nat),
{
    proof {
        lemma2_to64();
        lemma_pow2_strictly_increases(n as nat, 32);
        lemma_u32_shl_is_mul(1, n);
    }
    1u32 << n
}

/// `x / 2^n`, rounded down.
pub(crate) fn shift_right(x: u32, n: u32) -> (q: u32)
    requires
        n < 32,
    ensures
        q == x as int / pow2(n as nat) as int,
{
    proof {
        lemma_u32_shr_is_div(x, n);
    }
    x >> n
}

/// `x * 2^n`.
pub(crate) fn shift_left(x: u32, n: u32) -> (p: u32)
    requires
        n < 32,
        x * pow2(n as nat) <= u32::MAX,
    ensures
        p == x * pow2(n as nat),
{
    proof {
        lemma_u32_shl_is_mul(x, n);
    }
    x << n
}

} // verus!
