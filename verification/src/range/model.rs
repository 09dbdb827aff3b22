//! The mathematical model of the range coder, and its laws.

use super::digits::{byte_at, head, lemma_head_bound, lemma_head_drop, lemma_head_extend, whole};
use super::{
    bit_length, lemma_bit_length, lemma_bit_length_at_most, lemma_bit_length_monotonic,
    lemma_bit_length_more_than, CODE_BOT, CODE_TOP,
};
use vstd::arithmetic::div_mod::{
    lemma_div_is_ordered, lemma_fundamental_div_mod, lemma_fundamental_div_mod_converse,
    lemma_mod_multiples_basic,
};
use vstd::arithmetic::power2::{
    lemma2_to64, lemma_pow2_adds, lemma_pow2_pos, lemma_pow2_strictly_increases,
    lemma_pow2_unfold, pow2,
};
use vstd::prelude::*;

verus! {

/// What an encoder has committed to: every frame whose leading
/// `31 + 8 * count` bits, read as an integer, lie in `low..low + rng` and
/// whose trailing `raw_bits` bits are `raw` carries the coded symbols.
pub struct EncoderState {
    pub low: int,
    pub rng: int,
    pub count: nat,
    pub raw: int,
    pub raw_bits: nat,
}

/// What a decoder knows: how far the code lies below the top of the current
/// interval, the interval's size, how many symbols of eight bits were shifted
/// in since the start, the last byte read, and how many raw bits were taken
/// from the end of `data`.
pub struct DecoderState {
    pub data: Seq<u8>,
    pub val: int,
    pub rng: int,
    pub count: nat,
    pub rem: int,
    pub raw_bits: nat,
}

/// The leading `31 + 8 * count` bits of a frame.
pub open spec fn code(data: Seq<u8>, count: nat) -> int {
    head(data, count + 4) / 2
}

/// How often a range of this size is multiplied by 256 until it exceeds
/// `CODE_BOT`.
pub open spec fn shortfall(rng: int) -> nat {
    if rng > CODE_BOT {
        0
    } else {
        (CODE_BOT + 1 - rng) as nat
    }
}

/// How many low bits of a uniform value below `ft` are coded as raw bits.
pub open spec fn uint_raw_bits(ft: int) -> nat {
    let bits = bit_length(ft - 1);
    if bits <= 8 {
        0
    } else {
        (bits - 8) as nat
    }
}

/// Symbol `k` of the table has a positive probability, and its frequencies
/// lie within `2^ftb`.
pub open spec fn icdf_codable(icdf: Seq<u8>, k: int, ftb: nat) -> bool {
    &&& 0 <= k < icdf.len()
    &&& ftb <= 23
    &&& k == 0 ==> icdf[0] < pow2(ftb)
    &&& k > 0 ==> icdf[k] < icdf[k - 1] <= pow2(ftb)
}

impl EncoderState {
    /// The state before the first symbol.
    pub open spec fn initial() -> Self {
        EncoderState { low: 0, rng: CODE_TOP as int, count: 0, raw: 0, raw_bits: 0 }
    }

    /// The range is normalized, the interval lies among the integers of
    /// `31 + 8 * count` bits, and the raw bits fit their length.
    pub open spec fn valid(self) -> bool {
        &&& CODE_BOT < self.rng <= CODE_TOP
        &&& 0 <= self.low
        &&& self.low + self.rng <= pow2(31 + 8 * self.count)
        &&& 0 <= self.raw < pow2(self.raw_bits)
    }

    /// Multiplies the interval by 256 until its size exceeds `CODE_BOT`.
    pub open spec fn normalize(self) -> Self
        decreases shortfall(self.rng),
    {
        if 0 < self.rng <= CODE_BOT {
            (EncoderState {
                low: self.low * 256,
                rng: self.rng * 256,
                count: self.count + 1,
                ..self
            }).normalize()
        } else {
            self
        }
    }

    /// Narrows the interval to the `size` integers that start `offset` above
    /// its lower end.
    pub open spec fn narrow(self, offset: int, size: int) -> Self {
        (EncoderState { low: self.low + offset, rng: size, ..self }).normalize()
    }

    /// The lower end of the subinterval of a symbol with cumulative
    /// frequencies `fl..` out of `ft`, relative to `low`. What division
    /// leaves over goes to the first symbol.
    pub open spec fn offset_of(self, fl: int, ft: int) -> int {
        if fl > 0 {
            self.rng - (self.rng / ft) * (ft - fl)
        } else {
            0
        }
    }

    /// Codes a symbol that owns the frequencies `fl..fh` out of `ft`.
    pub open spec fn encode(self, fl: int, fh: int, ft: int) -> Self {
        let from = self.offset_of(fl, ft);
        let to = self.rng - (self.rng / ft) * (ft - fh);
        self.narrow(from, to - from)
    }

    /// Where the subinterval of symbol `k` of an inverse CDF table begins,
    /// relative to `low`, and where it ends. The table counts, out of
    /// `2^ftb`, the frequencies above each symbol.
    pub open spec fn icdf_bounds(self, k: int, icdf: Seq<u8>, ftb: nat) -> (int, int) {
        let r = self.rng / pow2(ftb) as int;
        let from = if k > 0 {
            self.rng - r * icdf[k - 1]
        } else {
            0
        };
        (from, self.rng - r * icdf[k])
    }

    /// Codes symbol `k` of an inverse CDF table.
    pub open spec fn encode_icdf(self, k: int, icdf: Seq<u8>, ftb: nat) -> Self {
        let (from, to) = self.icdf_bounds(k, icdf, ftb);
        self.narrow(from, to - from)
    }

    /// Codes one of two outcomes, of which `true` has the probability
    /// `1 / 2^logp`.
    pub open spec fn encode_bit(self, bit: bool, logp: nat) -> Self {
        let ft = pow2(logp) as int;
        if bit {
            self.encode(ft - 1, ft, ft)
        } else {
            self.encode(0, ft - 1, ft)
        }
    }

    /// Codes `t`, one of `ft` equally likely values: the leading eight bits
    /// as a symbol, the others as raw bits.
    pub open spec fn encode_uint(self, t: int, ft: int) -> Self {
        let s = uint_raw_bits(ft);
        if s == 0 {
            self.encode(t, t + 1, ft)
        } else {
            let unit = pow2(s) as int;
            self.encode(t / unit, t / unit + 1, (ft - 1) / unit + 1).raw_append(t % unit, s)
        }
    }

    /// Appends the low `bits` bits of `value` to the raw bits.
    pub open spec fn raw_append(self, value: int, bits: nat) -> Self {
        EncoderState {
            raw: self.raw + value * pow2(self.raw_bits),
            raw_bits: self.raw_bits + bits,
            ..self
        }
    }

    /// The code of the frame lies in the interval.
    pub open spec fn contains(self, data: Seq<u8>) -> bool {
        self.low <= code(data, self.count) < self.low + self.rng
    }

    /// The frame carries everything that was coded.
    pub open spec fn carried_by(self, data: Seq<u8>) -> bool {
        &&& self.contains(data)
        &&& whole(data) % pow2(self.raw_bits) as int == self.raw
    }

    /// Bits used so far, rounded up and counting the 33 bits that the
    /// registers hold at the start.
    pub open spec fn nbits_total(self) -> nat {
        33 + 8 * self.count + self.raw_bits
    }
}

impl DecoderState {
    /// The state after the first 31 bits were read.
    pub open spec fn initial(data: Seq<u8>) -> Self {
        DecoderState {
            data,
            val: CODE_TOP - 1 - code(data, 0),
            rng: CODE_TOP as int,
            count: 0,
            rem: byte_at(data, 3),
            raw_bits: 0,
        }
    }

    /// The range is normalized and the code lies in the interval.
    pub open spec fn valid(self) -> bool {
        &&& CODE_BOT < self.rng <= CODE_TOP
        &&& 0 <= self.val < self.rng
        &&& 0 <= self.rem < 256
    }

    /// Shifts in one eight-bit symbol, which straddles two bytes.
    pub open spec fn shift_in(self) -> Self {
        let next = byte_at(self.data, self.count as int + 4);
        let sym = ((self.rem % 2) * 256 + next) / 2;
        DecoderState {
            val: self.val * 256 + 255 - sym,
            rng: self.rng * 256,
            count: self.count + 1,
            rem: next,
            ..self
        }
    }

    /// Shifts symbols in until the range exceeds `CODE_BOT`.
    pub open spec fn normalize(self) -> Self
        decreases shortfall(self.rng),
    {
        if 0 < self.rng <= CODE_BOT {
            self.shift_in().normalize()
        } else {
            self
        }
    }

    /// Narrows the interval to the `size` integers that start `offset` above
    /// its lower end.
    pub open spec fn narrow(self, offset: int, size: int) -> Self {
        (DecoderState { val: self.val - (self.rng - offset - size), rng: size, ..self }).normalize()
    }

    /// The frequency, out of `ft`, that the code falls on.
    pub open spec fn frequency(self, ft: int) -> int {
        let above = self.val / (self.rng / ft) + 1;
        if above < ft {
            ft - above
        } else {
            0
        }
    }

    /// Takes the symbol that owns the frequencies `fl..fh` out of `ft`.
    pub open spec fn update(self, fl: int, fh: int, ft: int) -> Self {
        let r = self.rng / ft;
        let from = if fl > 0 {
            self.rng - r * (ft - fl)
        } else {
            0
        };
        let to = self.rng - r * (ft - fh);
        self.narrow(from, to - from)
    }

    /// `k` is the first symbol of the inverse CDF table whose subinterval
    /// begins at or below the code.
    pub open spec fn icdf_selects(self, k: int, icdf: Seq<u8>, ftb: nat) -> bool {
        let r = self.rng / pow2(ftb) as int;
        &&& 0 <= k < icdf.len()
        &&& self.val >= r * icdf[k]
        &&& forall|j: int| 0 <= j < k ==> self.val < r * #[trigger] icdf[j]
    }

    /// Takes symbol `k` of an inverse CDF table.
    pub open spec fn take_icdf(self, k: int, icdf: Seq<u8>, ftb: nat) -> Self {
        let r = self.rng / pow2(ftb) as int;
        let from = if k > 0 {
            self.rng - r * icdf[k - 1]
        } else {
            0
        };
        let to = self.rng - r * icdf[k];
        self.narrow(from, to - from)
    }

    /// Which of two outcomes comes next; `true` has the probability
    /// `1 / 2^logp`.
    pub open spec fn next_bit(self, logp: nat) -> bool {
        self.val < self.rng / pow2(logp) as int
    }

    /// Takes one of two outcomes.
    pub open spec fn take_bit(self, bit: bool, logp: nat) -> Self {
        let ft = pow2(logp) as int;
        if bit {
            self.update(ft - 1, ft, ft)
        } else {
            self.update(0, ft - 1, ft)
        }
    }

    /// The value below `ft` that comes next, unless the frame is corrupt;
    /// then a number that is `ft` or more.
    pub open spec fn next_uint(self, ft: int) -> int {
        let s = uint_raw_bits(ft);
        if s == 0 {
            self.frequency(ft)
        } else {
            let unit = pow2(s) as int;
            self.frequency((ft - 1) / unit + 1) * unit + self.raw_peek(s)
        }
    }

    /// Takes one of `ft` equally likely values.
    pub open spec fn take_uint(self, ft: int) -> Self {
        let s = uint_raw_bits(ft);
        if s == 0 {
            let t = self.frequency(ft);
            self.update(t, t + 1, ft)
        } else {
            let total = (ft - 1) / pow2(s) as int + 1;
            let t = self.frequency(total);
            self.update(t, t + 1, total).raw_take(s)
        }
    }

    /// The next `bits` raw bits.
    pub open spec fn raw_peek(self, bits: nat) -> int {
        (whole(self.data) / pow2(self.raw_bits) as int) % pow2(bits) as int
    }

    /// Takes `bits` raw bits.
    pub open spec fn raw_take(self, bits: nat) -> Self {
        DecoderState { raw_bits: self.raw_bits + bits, ..self }
    }

    /// The decoder stands where the encoder stood: same interval size, same
    /// bit count, and the code measured from the same interval.
    pub open spec fn follows(self, enc: EncoderState) -> bool {
        &&& self.rng == enc.rng
        &&& self.count == enc.count
        &&& self.raw_bits == enc.raw_bits
        &&& self.rem == byte_at(self.data, self.count as int + 3)
        &&& self.val == enc.low + enc.rng - 1 - code(self.data, self.count)
    }

    /// Bits used so far, rounded up and counting the 33 bits that the
    /// registers hold at the start.
    pub open spec fn nbits_total(self) -> nat {
        33 + 8 * self.count + self.raw_bits
    }
}

/// One more byte of the code.
pub proof fn lemma_code_step(data: Seq<u8>, count: nat)
    ensures
        code(data, count + 1) == 256 * code(data, count) + ((byte_at(data, count as int + 3) % 2) * 256
            + byte_at(data, count as int + 4)) / 2,
{
    let h = head(data, count + 4);
    let b3 = byte_at(data, count as int + 3);
    let b4 = byte_at(data, count as int + 4);
    let h3 = head(data, count + 3);
    assert(head(data, count + 5) == h * 256 + b4);
    assert(h == h3 * 256 + b3);
    lemma_code_bits(h3, b3, b4);
}

/// Dropping the last bit of a number before and after appending a byte.
proof fn lemma_code_bits(h: int, b3: int, b4: int)
    ensures
        ((h * 256 + b3) * 256 + b4) / 2 == 256 * ((h * 256 + b3) / 2) + ((b3 % 2) * 256 + b4) / 2,
{
    let q = b3 / 2;
    let r = b3 % 2;
    assert(b3 == 2 * q + r);
    assert((h * 256 + b3) / 2 == h * 128 + q);
}

/// Normalizing keeps the interval inside the integers of its length.
pub proof fn lemma_normalize_valid(enc: EncoderState)
    requires
        0 < enc.rng <= CODE_TOP,
        0 <= enc.low,
        enc.low + enc.rng <= pow2(31 + 8 * enc.count),
        0 <= enc.raw < pow2(enc.raw_bits),
    ensures
        enc.normalize().valid(),
        enc.normalize().raw == enc.raw,
        enc.normalize().raw_bits == enc.raw_bits,
    decreases shortfall(enc.rng),
{
    if enc.rng <= CODE_BOT {
        let next = EncoderState {
            low: enc.low * 256,
            rng: enc.rng * 256,
            count: enc.count + 1,
            ..enc
        };
        lemma2_to64();
        lemma_pow2_adds(31 + 8 * enc.count, 8);
        assert(31 + 8 * enc.count + 8 == 31 + 8 * next.count);
        lemma_normalize_valid(next);
    }
}

/// Narrowing to a nonempty subinterval keeps the state valid.
pub proof fn lemma_narrow_valid(enc: EncoderState, offset: int, size: int)
    requires
        enc.valid(),
        0 <= offset,
        0 < size,
        offset + size <= enc.rng,
    ensures
        enc.narrow(offset, size).valid(),
        enc.narrow(offset, size).raw == enc.raw,
        enc.narrow(offset, size).raw_bits == enc.raw_bits,
{
    lemma_normalize_valid(EncoderState { low: enc.low + offset, rng: size, ..enc });
}

/// A code inside the normalized interval was inside it before.
pub proof fn lemma_normalize_contains(enc: EncoderState, data: Seq<u8>)
    requires
        enc.normalize().contains(data),
    ensures
        enc.contains(data),
    decreases shortfall(enc.rng),
{
    if 0 < enc.rng <= CODE_BOT {
        let next = EncoderState {
            low: enc.low * 256,
            rng: enc.rng * 256,
            count: enc.count + 1,
            ..enc
        };
        lemma_normalize_contains(next, data);
        lemma_code_step(data, enc.count);
    }
}

/// Intervals are nested: a code inside the narrowed interval is inside the
/// interval it was cut from.
pub proof fn lemma_narrow_contains(enc: EncoderState, offset: int, size: int, data: Seq<u8>)
    requires
        0 <= offset,
        offset + size <= enc.rng,
        enc.narrow(offset, size).contains(data),
    ensures
        enc.low + offset <= code(data, enc.count) < enc.low + offset + size,
        enc.contains(data),
{
    lemma_normalize_contains(EncoderState { low: enc.low + offset, rng: size, ..enc }, data);
}

/// Decoder and encoder stay in step while they normalize.
pub proof fn lemma_normalize_follows(dec: DecoderState, enc: EncoderState)
    requires
        dec.follows(enc),
    ensures
        dec.normalize().follows(enc.normalize()),
        dec.normalize().data == dec.data,
    decreases shortfall(enc.rng),
{
    if 0 < enc.rng <= CODE_BOT {
        let next = EncoderState {
            low: enc.low * 256,
            rng: enc.rng * 256,
            count: enc.count + 1,
            ..enc
        };
        lemma_code_step(dec.data, enc.count);
        lemma_normalize_follows(dec.shift_in(), next);
    }
}

/// Decoder and encoder stay in step when both narrow alike.
pub proof fn lemma_narrow_follows(dec: DecoderState, enc: EncoderState, offset: int, size: int)
    requires
        dec.follows(enc),
    ensures
        dec.narrow(offset, size).follows(enc.narrow(offset, size)),
        dec.narrow(offset, size).data == dec.data,
{
    lemma_normalize_follows(
        DecoderState { val: dec.val - (dec.rng - offset - size), rng: size, ..dec },
        EncoderState { low: enc.low + offset, rng: size, ..enc },
    );
}

/// A symbol's subinterval is nonempty and lies inside the current one.
pub proof fn lemma_symbol_interval(rng: int, fl: int, fh: int, ft: int)
    requires
        0 <= fl < fh <= ft <= rng,
    ensures
        rng / ft >= 1,
        (rng / ft) * ft <= rng,
        ({
            let r = rng / ft;
            let from = if fl > 0 {
                rng - r * (ft - fl)
            } else {
                0
            };
            let to = rng - r * (ft - fh);
            &&& 0 <= from < to <= rng
            &&& to - from >= r * (fh - fl)
            &&& r * (ft - fl) <= rng
        }),
{
    let r = rng / ft;
    lemma_fundamental_div_mod(rng, ft);
    assert(r >= 1 && r * ft <= rng) by (nonlinear_arith)
        requires
            0 < ft <= rng,
            rng == ft * r + rng % ft,
            0 <= rng % ft < ft,
    ;
    assert(0 <= r * (ft - fl) <= r * ft) by (nonlinear_arith)
        requires
            r >= 1,
            0 <= fl <= ft,
    ;
    assert(r * (ft - fl) == r * (ft - fh) + r * (fh - fl)) by (nonlinear_arith);
    assert(r * (ft - fh) >= 0) by (nonlinear_arith)
        requires
            r >= 1,
            fh <= ft,
    ;
    assert(r * (fh - fl) >= 1) by (nonlinear_arith)
        requires
            r >= 1,
            fl < fh,
    ;
    assert(fl == 0 ==> r * (ft - fl) == r * ft);
}

/// The decoder finds a frequency that belongs to the coded symbol.
pub proof fn lemma_frequency(dec: DecoderState, enc: EncoderState, fl: int, fh: int, ft: int)
    requires
        enc.valid(),
        dec.follows(enc),
        0 <= fl < fh <= ft <= enc.rng,
        enc.encode(fl, fh, ft).contains(dec.data),
    ensures
        fl <= dec.frequency(ft) < fh,
{
    let r = enc.rng / ft;
    lemma_symbol_interval(enc.rng, fl, fh, ft);
    let from = enc.offset_of(fl, ft);
    let to = enc.rng - r * (ft - fh);
    lemma_narrow_contains(enc, from, to - from, dec.data);
    let v = dec.val;
    let q = v / r;
    lemma_fundamental_div_mod(v, r);
    // r * (ft - fh) <= v, so the quotient is at least ft - fh
    assert(q >= ft - fh) by (nonlinear_arith)
        requires
            r >= 1,
            v == r * q + v % r,
            0 <= v % r < r,
            r * (ft - fh) <= v,
    ;
    if fl > 0 {
        assert(q < ft - fl) by (nonlinear_arith)
            requires
                r >= 1,
                v == r * q + v % r,
                0 <= v % r < r,
                v < r * (ft - fl),
        ;
    }
}

/// The subinterval of a codable symbol is nonempty and lies inside the
/// current one.
pub proof fn lemma_icdf_bounds(enc: EncoderState, k: int, icdf: Seq<u8>, ftb: nat)
    requires
        CODE_BOT < enc.rng,
        icdf_codable(icdf, k, ftb),
    ensures
        ({
            let (from, to) = enc.icdf_bounds(k, icdf, ftb);
            let r = enc.rng / pow2(ftb) as int;
            &&& 0 <= from < to <= enc.rng
            &&& r >= 1
            &&& 0 <= r * icdf[k] <= enc.rng
            &&& k > 0 ==> 0 <= r * icdf[k - 1] <= enc.rng
        }),
{
    lemma2_to64();
    lemma_pow2_pos(ftb);
    if ftb < 23 {
        lemma_pow2_strictly_increases(ftb, 23);
    }
    let rng = enc.rng;
    let ft = pow2(ftb) as int;
    let r = rng / ft;
    lemma_fundamental_div_mod(rng, ft);
    assert(r >= 1) by (nonlinear_arith)
        requires
            0 < ft <= rng,
            rng == ft * r + rng % ft,
            0 <= rng % ft < ft,
    ;
    let hi = icdf[k] as int;
    if k == 0 {
        assert(0 <= r * hi < rng) by (nonlinear_arith)
            requires
                rng == ft * r + rng % ft,
                0 <= rng % ft < ft,
                0 <= hi < ft,
                r >= 1,
        ;
    } else {
        let lo = icdf[k - 1] as int;
        assert(0 <= r * hi && r * hi < r * lo && r * lo <= rng) by (nonlinear_arith)
            requires
                rng == ft * r + rng % ft,
                0 <= rng % ft < ft,
                0 <= hi < lo <= ft,
                r >= 1,
        ;
    }
}

/// The two parts of a uniform value: a symbol below at most 256, and raw bits.
pub proof fn lemma_uint_parts(t: int, ft: int)
    requires
        2 <= ft <= u32::MAX,
        0 <= t < ft,
    ensures
        ({
            let bits = bit_length(ft - 1);
            let s = uint_raw_bits(ft);
            let unit = pow2(s) as int;
            &&& 1 <= bits <= 32
            &&& s <= 24
            &&& unit >= 1
            &&& s == 0 ==> ft <= 256
            &&& 0 <= t / unit < (ft - 1) / unit + 1 <= 256
            &&& 0 <= t % unit < unit
            &&& t == (t / unit) * unit + t % unit
        }),
{
    lemma2_to64();
    lemma_bit_length(ft - 1);
    lemma_bit_length_at_most(ft - 1, 32);
    let bits = bit_length(ft - 1);
    let s = uint_raw_bits(ft);
    let unit = pow2(s) as int;
    lemma_pow2_pos(s);
    lemma_fundamental_div_mod(t, unit);
    lemma_div_is_ordered(t, ft - 1, unit);
    lemma_fundamental_div_mod(ft - 1, unit);
    assert((t / unit) * unit == unit * (t / unit)) by (nonlinear_arith);
    if bits <= 8 {
        if bits < 8 {
            lemma_pow2_strictly_increases(bits, 8);
        }
    } else {
        lemma_pow2_adds(s, 8);
        let q = (ft - 1) / unit;
        assert(q < 256) by (nonlinear_arith)
            requires
                unit > 0,
                ft - 1 < unit * 256,
                ft - 1 == unit * q + (ft - 1) % unit,
                0 <= (ft - 1) % unit,
        ;
    }
    assert(0 <= t / unit) by (nonlinear_arith)
        requires
            t >= 0,
            unit > 0,
    ;
}

/// Coding a symbol takes at most 24 bits.
pub proof fn lemma_encode_bits(enc: EncoderState, fl: int, fh: int, ft: int)
    requires
        enc.valid(),
        0 <= fl < fh <= ft <= 65536,
    ensures
        enc.encode(fl, fh, ft).nbits_total() <= enc.nbits_total() + 24,
        enc.encode(fl, fh, ft).raw_bits == enc.raw_bits,
        enc.encode(fl, fh, ft).raw == enc.raw,
{
    lemma_symbol_interval(enc.rng, fl, fh, ft);
    let from = enc.offset_of(fl, ft);
    let to = enc.rng - (enc.rng / ft) * (ft - fh);
    lemma_narrow_bits(enc, from, to - from);
}

/// Narrowing takes at most 24 bits.
pub proof fn lemma_narrow_bits(enc: EncoderState, offset: int, size: int)
    requires
        size > 0,
    ensures
        enc.narrow(offset, size).count <= enc.count + 3,
        enc.narrow(offset, size).raw_bits == enc.raw_bits,
        enc.narrow(offset, size).raw == enc.raw,
{
    reveal_with_fuel(EncoderState::normalize, 4);
}

/// Normalizing keeps the number of whole bits used.
proof fn lemma_normalize_tell(enc: EncoderState)
    requires
        enc.rng > 0,
    ensures
        enc.normalize().nbits_total() - bit_length(enc.normalize().rng) == enc.nbits_total()
            - bit_length(enc.rng),
    decreases shortfall(enc.rng),
{
    if enc.rng <= CODE_BOT {
        let next = EncoderState {
            low: enc.low * 256,
            rng: enc.rng * 256,
            count: enc.count + 1,
            ..enc
        };
        lemma_normalize_tell(next);
        assert(bit_length(enc.rng * 256) == 8 + bit_length(enc.rng)) by {
            reveal_with_fuel(bit_length, 9);
        }
    }
}

/// Narrowing does not lower the number of whole bits used.
pub proof fn lemma_narrow_tell(enc: EncoderState, offset: int, size: int)
    requires
        0 < size <= enc.rng,
    ensures
        enc.narrow(offset, size).nbits_total() - bit_length(enc.narrow(offset, size).rng)
            >= enc.nbits_total() - bit_length(enc.rng),
{
    lemma_normalize_tell(EncoderState { low: enc.low + offset, rng: size, ..enc });
    lemma_bit_length_monotonic(size, enc.rng);
}

/// A symbol does not lower the number of whole bits used.
pub proof fn lemma_encode_tell(enc: EncoderState, fl: int, fh: int, ft: int)
    requires
        enc.valid(),
        0 <= fl < fh <= ft <= 65536,
    ensures
        enc.encode(fl, fh, ft).nbits_total() - bit_length(enc.encode(fl, fh, ft).rng)
            >= enc.nbits_total() - bit_length(enc.rng),
{
    lemma_symbol_interval(enc.rng, fl, fh, ft);
    let from = enc.offset_of(fl, ft);
    let to = enc.rng - (enc.rng / ft) * (ft - fh);
    lemma_narrow_tell(enc, from, to - from);
}

/// One of two outcomes is coded like a symbol out of `2^logp`, of which `true`
/// owns the last frequency and `false` all others.
pub proof fn law_bit_is_symbol(enc: EncoderState, bit: bool, logp: nat)
    ensures
        enc.encode_bit(bit, logp) == if bit {
            enc.encode(pow2(logp) - 1, pow2(logp) as int, pow2(logp) as int)
        } else {
            enc.encode(0, pow2(logp) - 1, pow2(logp) as int)
        },
{
}

/// Symbol `k` of an inverse CDF table is coded like a symbol out of `2^ftb` that
/// owns the frequencies between its entry and the one before.
pub proof fn law_table_is_symbol(enc: EncoderState, k: int, icdf: Seq<u8>, ftb: nat)
    requires
        icdf_codable(icdf, k, ftb),
        k > 0 ==> icdf[k - 1] < pow2(ftb),
    ensures
        enc.encode_icdf(k, icdf, ftb) == enc.encode(
            if k == 0 {
                0
            } else {
                pow2(ftb) - icdf[k - 1]
            },
            pow2(ftb) - icdf[k],
            pow2(ftb) as int,
        ),
{
}

/// Rounding up commutes with adding multiples of `2^31`.
pub proof fn lemma_round_up_shift(val: int, t: int, bits: nat)
    requires
        1 <= bits <= 32,
    ensures
        ({
            let unit = pow2((bits - 1) as nat) as int;
            &&& unit > 0
            &&& round_up(t * CODE_TOP + val, unit) == t * CODE_TOP + round_up(val, unit)
        }),
{
    let unit = pow2((bits - 1) as nat) as int;
    lemma2_to64();
    lemma_pow2_pos((bits - 1) as nat);
    lemma_pow2_adds((bits - 1) as nat, (32 - bits) as nat);
    let k = pow2((32 - bits) as nat) as int;
    assert((bits - 1) as nat + (32 - bits) as nat == 31);
    assert(t * CODE_TOP == (t * k) * unit) by (nonlinear_arith)
        requires
            CODE_TOP == unit * k,
    ;
    let q = (val + unit - 1) / unit;
    let m = (val + unit - 1) % unit;
    lemma_fundamental_div_mod(val + unit - 1, unit);
    assert((t * k) * unit + val + unit - 1 == (t * k + q) * unit + m) by (nonlinear_arith)
        requires
            val + unit - 1 == unit * q + m,
    ;
    lemma_fundamental_div_mod_converse((t * k) * unit + val + unit - 1, unit, t * k + q, m);
    assert((t * k + q) * unit == (t * k) * unit + q * unit) by (nonlinear_arith);
}

/// `x` rounded up to a multiple of `unit`.
pub open spec fn round_up(x: int, unit: int) -> int {
    ((x + unit - 1) / unit) * unit
}

impl EncoderState {
    /// How many leading bits, beyond the `8 * count` already settled, a
    /// terminated stream has to spell out so that whatever follows them keeps
    /// the code inside the interval.
    pub open spec fn end_bits(self) -> nat {
        let l = (32 - bit_length(self.rng)) as nat;
        let unit = pow2((31 - l) as nat) as int;
        if round_up(self.low, unit) + unit <= self.low + self.rng {
            l
        } else {
            l + 1
        }
    }

    /// Whole bytes that hold the `end_bits`.
    pub open spec fn end_bytes(self) -> nat {
        (self.end_bits() + 7) / 8
    }

    /// Bytes that the range coder's part of a terminated stream takes.
    pub open spec fn front_bytes(self) -> nat {
        self.count + self.end_bytes()
    }

    /// The range coder's part of a terminated stream: the number in the
    /// interval with the most trailing zero bits, without those that no byte
    /// has to hold.
    pub open spec fn front_value(self) -> int {
        round_up(self.low, pow2((31 - self.end_bits()) as nat) as int) / pow2(
            (31 - 8 * self.end_bytes()) as nat,
        ) as int
    }

    /// Everything that was coded fits in a frame of `size` bytes. The last
    /// raw bits may share a byte with the range coder where it leaves enough
    /// low bits of its last byte open.
    pub open spec fn fits(self, size: nat) -> bool {
        let used = self.front_bytes() + self.raw_bits / 8;
        let left = self.raw_bits % 8;
        &&& used <= size
        &&& left == 0 || used < size || (self.raw_bits / 8 < size && left <= 8 * self.end_bytes()
            - self.end_bits())
    }

    /// The finished frame of `size` bytes as a big-endian number: the range
    /// coder's part at the front, the raw bits at the end, zeros between.
    pub open spec fn frame_value(self, size: nat) -> int {
        self.front_value() * pow2(8 * (size - self.front_bytes()) as nat) + self.raw
    }
}

/// Rounding up lands on a multiple less than one unit away.
pub proof fn lemma_round_up(x: int, unit: int)
    requires
        unit > 0,
    ensures
        x <= round_up(x, unit) < x + unit,
        round_up(x, unit) % unit == 0,
{
    let q = (x + unit - 1) / unit;
    lemma_fundamental_div_mod(x + unit - 1, unit);
    assert(q * unit == unit * q) by (nonlinear_arith);
    lemma_mod_multiples_basic(q, unit);
}

/// The number of bits that termination has to spell out is small, and the
/// number that it spells out keeps every continuation inside the interval.
pub proof fn lemma_end_bits(enc: EncoderState)
    requires
        enc.valid(),
    ensures
        enc.end_bits() <= 9,
        enc.end_bytes() <= 2,
        8 * enc.end_bytes() >= enc.end_bits(),
        ({
            let unit = pow2((31 - enc.end_bits()) as nat) as int;
            &&& unit > 0
            &&& round_up(enc.low, unit) + unit <= enc.low + enc.rng
        }),
        bit_length(enc.rng) >= 24,
        bit_length(enc.rng) <= 32,
{
    let rng = enc.rng;
    lemma2_to64();
    lemma_bit_length(rng);
    lemma_bit_length_at_most(rng, 32);
    lemma_bit_length_more_than(rng, 23);
    let bl = bit_length(rng);
    let l = (32 - bl) as nat;
    let unit = pow2((31 - l) as nat) as int;
    lemma_pow2_pos((31 - l) as nat);
    assert((31 - l) as nat == (bl - 1) as nat);
    if !(round_up(enc.low, unit) + unit <= enc.low + rng) {
        // half a unit fits, because the range holds at least one unit
        let half = pow2((31 - (l + 1)) as nat) as int;
        lemma_pow2_unfold((31 - l) as nat);
        lemma_pow2_pos((31 - (l + 1)) as nat);
        lemma_round_up(enc.low, half);
    }
}

/// The terminated value: the rounded lower end without its free low bits.
pub proof fn lemma_front_value(enc: EncoderState)
    requires
        enc.valid(),
    ensures
        ({
            let l = enc.end_bits();
            let j = enc.end_bytes();
            let unit = pow2((31 - l) as nat) as int;
            let e = round_up(enc.low, unit);
            let sp = pow2((8 * j - l) as nat) as int;
            &&& sp > 0
            &&& unit == pow2((31 - 8 * j) as nat) * sp
            &&& e == enc.front_value() * pow2((31 - 8 * j) as nat)
            &&& enc.front_value() == (e / unit) * sp
            &&& enc.front_value() % sp == 0
            &&& pow2(8 * j) * e == CODE_TOP * enc.front_value()
        }),
{
    lemma_end_bits(enc);
    let l = enc.end_bits();
    let j = enc.end_bytes();
    let unit = pow2((31 - l) as nat) as int;
    let byte_unit = pow2((31 - 8 * j) as nat) as int;
    let spare = (8 * j - l) as nat;
    let sp = pow2(spare) as int;
    let e = round_up(enc.low, unit);
    let q = e / unit;
    lemma2_to64();
    lemma_round_up(enc.low, unit);
    lemma_pow2_pos((31 - 8 * j) as nat);
    lemma_pow2_pos(spare);
    lemma_pow2_adds((31 - 8 * j) as nat, spare);
    assert((31 - 8 * j) as nat + spare == (31 - l) as nat);
    lemma_fundamental_div_mod(e, unit);
    assert(e == (q * sp) * byte_unit) by (nonlinear_arith)
        requires
            e == unit * q,
            unit == byte_unit * sp,
    ;
    lemma_fundamental_div_mod_converse(e, byte_unit, q * sp, 0);
    lemma_mod_multiples_basic(q, sp);
    lemma_pow2_adds(8 * j, (31 - 8 * j) as nat);
    let p = pow2(8 * j) as int;
    let fv = q * sp;
    assert(p * (fv * byte_unit) == (p * byte_unit) * fv) by (nonlinear_arith);
}

/// A frame with the terminated value carries everything that was coded.
pub proof fn law_terminated_frame_carries(enc: EncoderState, data: Seq<u8>)
    requires
        enc.valid(),
        enc.fits(data.len()),
        whole(data) == enc.frame_value(data.len()),
    ensures
        enc.carried_by(data),
{
    lemma_end_bits(enc);
    lemma_front_value(enc);
    let l = enc.end_bits();
    let j = enc.end_bytes();
    let n = enc.count;
    let f = enc.front_bytes();
    let size = data.len();
    let gap = (size - f) as nat;
    let unit = pow2((31 - l) as nat) as int;
    let byte_unit = pow2((31 - 8 * j) as nat) as int;
    let spare = (8 * j - l) as nat;
    let sp = pow2(spare) as int;
    let e = round_up(enc.low, unit);
    let q = e / unit;
    let fv = enc.front_value();
    lemma_round_up(enc.low, unit);
    lemma_pow2_pos((31 - 8 * j) as nat);
    // the first f bytes are fv plus what the raw bits put into its spare bits
    let g = pow2(8 * gap) as int;
    lemma_pow2_pos(8 * gap);
    lemma_head_drop(data, gap);
    let h = head(data, f);
    assert(whole(data) / g == h);
    let raw = enc.raw;
    let rb = enc.raw_bits;
    let x = raw / g;
    assert(rb <= 8 * gap + spare);
    if rb < 8 * gap + spare {
        lemma_pow2_strictly_increases(rb, 8 * gap + spare);
    }
    lemma_pow2_adds(8 * gap, spare);
    assert(raw < g * sp);
    lemma_fundamental_div_mod(raw, g);
    lemma_fundamental_div_mod(whole(data), g);
    assert(h == fv + x) by {
        let rem = raw % g;
        assert(fv * g + raw == (fv + x) * g + rem) by (nonlinear_arith)
            requires
                raw == g * x + rem,
        ;
        lemma_fundamental_div_mod_converse(whole(data), g, fv + x, rem);
    }
    assert(0 <= x < sp) by (nonlinear_arith)
        requires
            raw == g * x + raw % g,
            0 <= raw % g < g,
            0 <= raw < g * sp,
            g > 0,
    ;
    // extend to the 31 + 8 * count bits of the code
    let k = (4 - j) as nat;
    assert(f + k == n + 4);
    lemma_head_extend(data, f, k);
    let p = pow2(8 * k) as int;
    lemma_pow2_adds((31 - 8 * j) as nat, 1);
    lemma2_to64();
    assert((31 - 8 * j) as nat + 1 == 8 * k);
    assert(p == 2 * byte_unit);
    let hh = head(data, n + 4);
    let c = code(data, n);
    assert(h * p == 2 * (h * byte_unit)) by (nonlinear_arith)
        requires
            p == 2 * byte_unit,
    ;
    assert((h + 1) * p == 2 * ((h + 1) * byte_unit)) by (nonlinear_arith)
        requires
            p == 2 * byte_unit,
    ;
    assert(h * byte_unit <= c < (h + 1) * byte_unit);
    assert(e <= h * byte_unit) by (nonlinear_arith)
        requires
            e == fv * byte_unit,
            h == fv + x,
            x >= 0,
            byte_unit > 0,
    ;
    assert((h + 1) * byte_unit <= e + unit) by (nonlinear_arith)
        requires
            e == fv * byte_unit,
            h == fv + x,
            x + 1 <= sp,
            unit == byte_unit * sp,
            byte_unit > 0,
    ;
    assert(enc.contains(data));
    // the raw bits are the low end of the value
    lemma_pow2_pos(rb);
    let b = pow2(rb) as int;
    if rb <= 8 * gap {
        lemma_pow2_adds(rb, (8 * gap - rb) as nat);
        let d = pow2((8 * gap - rb) as nat) as int;
        assert(whole(data) == (fv * d) * b + raw) by (nonlinear_arith)
            requires
                whole(data) == fv * g + raw,
                g == b * d,
        ;
        lemma_fundamental_div_mod_converse(whole(data), b, fv * d, raw);
    } else {
        // the raw bits reach into the spare bits, which fv leaves zero
        let over = (rb - 8 * gap) as nat;
        lemma_pow2_adds(8 * gap, over);
        lemma_pow2_adds(over, (spare - over) as nat);
        let o = pow2(over) as int;
        let d = pow2((spare - over) as nat) as int;
        assert(whole(data) == (q * d) * b + raw) by (nonlinear_arith)
            requires
                whole(data) == fv * g + raw,
                fv == q * sp,
                b == g * o,
                sp == o * d,
        ;
        lemma_fundamental_div_mod_converse(whole(data), b, q * d, raw);
    }
}

/// The initial decoder state is valid, and in step with the initial encoder
/// state.
pub proof fn lemma_initial(data: Seq<u8>)
    ensures
        DecoderState::initial(data).valid(),
        DecoderState::initial(data).follows(EncoderState::initial()),
        EncoderState::initial().valid(),
{
    lemma2_to64();
    lemma_head_bound(data, 4);
}

/// Normalizing keeps the code inside the interval.
pub proof fn lemma_decoder_normalize_valid(dec: DecoderState)
    requires
        0 <= dec.val < dec.rng <= CODE_TOP,
        0 <= dec.rem < 256,
    ensures
        dec.normalize().valid(),
        dec.normalize().data == dec.data,
        dec.normalize().raw_bits == dec.raw_bits,
    decreases shortfall(dec.rng),
{
    if 0 < dec.rng <= CODE_BOT {
        lemma_decoder_normalize_valid(dec.shift_in());
    }
}

/// The frequency that the code falls on is below the total, and the code lies
/// in the subinterval of every symbol that owns that frequency.
pub proof fn lemma_update_valid(dec: DecoderState, fl: int, fh: int, ft: int)
    requires
        dec.valid(),
        0 < ft <= dec.rng,
    ensures
        0 <= dec.frequency(ft) < ft,
        0 <= fl <= dec.frequency(ft) < fh <= ft ==> {
            let r = dec.rng / ft;
            &&& r * (ft - fh) <= dec.val
            &&& fl > 0 ==> dec.val < r * (ft - fl)
            &&& dec.update(fl, fh, ft).valid()
            &&& dec.update(fl, fh, ft).data == dec.data
            &&& dec.update(fl, fh, ft).raw_bits == dec.raw_bits
        },
{
    let r = dec.rng / ft;
    lemma_symbol_interval(dec.rng, 0, 1, ft);
    let v = dec.val;
    let q = v / r;
    lemma_fundamental_div_mod(v, r);
    assert(q >= 0) by (nonlinear_arith)
        requires
            v >= 0,
            r >= 1,
            q == v / r,
    ;
    if 0 <= fl <= dec.frequency(ft) < fh <= ft {
        lemma_symbol_interval(dec.rng, fl, fh, ft);
        assert(r * (ft - fh) <= v) by (nonlinear_arith)
            requires
                r >= 1,
                v == r * q + v % r,
                0 <= v % r < r,
                q >= ft - fh,
        ;
        let from = if fl > 0 {
            dec.rng - r * (ft - fl)
        } else {
            0
        };
        let to = dec.rng - r * (ft - fh);
        if fl > 0 {
            assert(v < r * (ft - fl)) by (nonlinear_arith)
                requires
                    r >= 1,
                    v == r * q + v % r,
                    0 <= v % r < r,
                    q + 1 <= ft - fl,
            ;
        }
        lemma_decoder_normalize_valid(
            DecoderState { val: v - (dec.rng - from - (to - from)), rng: to - from, ..dec },
        );
    }
}

/// Tables are read back: the decoder selects the symbol that was coded.
pub proof fn law_icdf_round_trip(
    dec: DecoderState,
    enc: EncoderState,
    k: int,
    icdf: Seq<u8>,
    ftb: nat,
)
    requires
        enc.valid(),
        dec.follows(enc),
        icdf_codable(icdf, k, ftb),
        forall|i: int, j: int| 0 <= i <= j < icdf.len() ==> icdf[i] >= icdf[j],
        enc.encode_icdf(k, icdf, ftb).contains(dec.data),
    ensures
        dec.icdf_selects(k, icdf, ftb),
        dec.take_icdf(k, icdf, ftb).follows(enc.encode_icdf(k, icdf, ftb)),
        dec.take_icdf(k, icdf, ftb).data == dec.data,
{
    lemma_icdf_bounds(enc, k, icdf, ftb);
    let (from, to) = enc.icdf_bounds(k, icdf, ftb);
    let r = enc.rng / pow2(ftb) as int;
    lemma_narrow_contains(enc, from, to - from, dec.data);
    lemma_narrow_follows(dec, enc, from, to - from);
    assert forall|j: int| 0 <= j < k implies dec.val < r * #[trigger] icdf[j] by {
        let a = icdf[j] as int;
        let b = icdf[k - 1] as int;
        assert(r * b <= r * a) by (nonlinear_arith)
            requires
                b <= a,
                r >= 1,
        ;
    }
}

/// Two-way symbols are read back.
pub proof fn law_bit_round_trip(dec: DecoderState, enc: EncoderState, bit: bool, logp: nat)
    requires
        enc.valid(),
        dec.follows(enc),
        1 <= logp <= 16,
        enc.encode_bit(bit, logp).contains(dec.data),
    ensures
        dec.next_bit(logp) == bit,
        dec.take_bit(bit, logp).follows(enc.encode_bit(bit, logp)),
        dec.take_bit(bit, logp).data == dec.data,
{
    lemma2_to64();
    lemma_pow2_pos(logp);
    lemma_pow2_strictly_increases(0, logp);
    if logp < 16 {
        lemma_pow2_strictly_increases(logp, 16);
    }
    let ft = pow2(logp) as int;
    let (fl, fh) = if bit {
        (ft - 1, ft)
    } else {
        (0, ft - 1)
    };
    let r = enc.rng / ft;
    lemma_symbol_interval(enc.rng, fl, fh, ft);
    let from = enc.offset_of(fl, ft);
    let to = enc.rng - r * (ft - fh);
    lemma_narrow_contains(enc, from, to - from, dec.data);
    lemma_narrow_follows(dec, enc, from, to - from);
    assert(r * (ft - (ft - 1)) == r) by (nonlinear_arith);
    assert(r * (ft - ft) == 0) by (nonlinear_arith);
}

/// Uniform values are read back.
pub proof fn law_uint_round_trip(dec: DecoderState, enc: EncoderState, t: int, ft: int)
    requires
        enc.valid(),
        dec.follows(enc),
        2 <= ft <= u32::MAX,
        0 <= t < ft,
        enc.encode_uint(t, ft).carried_by(dec.data),
    ensures
        dec.next_uint(ft) == t,
        dec.take_uint(ft).follows(enc.encode_uint(t, ft)),
        dec.take_uint(ft).data == dec.data,
        enc.encode_uint(t, ft).valid(),
        enc.carried_by(dec.data),
{
    lemma_uint_parts(t, ft);
    let s = uint_raw_bits(ft);
    let unit = pow2(s) as int;
    if s == 0 {
        let symbol = Symbol::Range { fl: t, fh: t + 1, ft };
        lemma_put_valid(enc, symbol);
        lemma_put_carried(enc, symbol, dec.data);
        law_step_round_trip(dec, enc, symbol);
    } else {
        let total = (ft - 1) / unit + 1;
        let first = Symbol::Range { fl: t / unit, fh: t / unit + 1, ft: total };
        let second = Symbol::Raw { value: t % unit, bits: s };
        let mid = enc.put(first);
        lemma_put_valid(enc, first);
        lemma_put_valid(mid, second);
        lemma_put_carried(mid, second, dec.data);
        lemma_put_carried(enc, first, dec.data);
        law_step_round_trip(dec, enc, first);
        law_step_round_trip(dec.take(first), mid, second);
        lemma_update_keeps_raw(dec, t / unit, t / unit + 1, total);
    }
}

/// Taking a symbol leaves the raw bits alone.
pub proof fn lemma_update_keeps_raw(dec: DecoderState, fl: int, fh: int, ft: int)
    ensures
        dec.update(fl, fh, ft).raw_bits == dec.raw_bits,
        dec.update(fl, fh, ft).data == dec.data,
{
    let r = dec.rng / ft;
    let from = if fl > 0 {
        dec.rng - r * (ft - fl)
    } else {
        0
    };
    let to = dec.rng - r * (ft - fh);
    lemma_normalize_keeps_raw(
        DecoderState { val: dec.val - (dec.rng - from - (to - from)), rng: to - from, ..dec },
    );
}

proof fn lemma_normalize_keeps_raw(dec: DecoderState)
    ensures
        dec.normalize().raw_bits == dec.raw_bits,
        dec.normalize().data == dec.data,
    decreases shortfall(dec.rng),
{
    if 0 < dec.rng <= CODE_BOT {
        lemma_normalize_keeps_raw(dec.shift_in());
    }
}

/// One coded item: a symbol with its frequencies, or a run of raw bits.
pub enum Symbol {
    Range { fl: int, fh: int, ft: int },
    Raw { value: int, bits: nat },
}

impl Symbol {
    /// The frequencies are ordered and fit in 16 bits; a raw value fits in
    /// its bits.
    pub open spec fn valid(self) -> bool {
        match self {
            Symbol::Range { fl, fh, ft } => 0 <= fl < fh <= ft <= 65535,
            Symbol::Raw { value, bits } => 0 <= value < pow2(bits),
        }
    }
}

impl EncoderState {
    /// Codes one item.
    pub open spec fn put(self, symbol: Symbol) -> Self {
        match symbol {
            Symbol::Range { fl, fh, ft } => self.encode(fl, fh, ft),
            Symbol::Raw { value, bits } => self.raw_append(value, bits),
        }
    }
}

impl DecoderState {
    /// The decoder reads the item back: a frequency inside the symbol's own,
    /// or the raw value itself.
    pub open spec fn reads(self, symbol: Symbol) -> bool {
        match symbol {
            Symbol::Range { fl, fh, ft } => fl <= self.frequency(ft) < fh,
            Symbol::Raw { value, bits } => self.raw_peek(bits) == value,
        }
    }

    /// Takes one item.
    pub open spec fn take(self, symbol: Symbol) -> Self {
        match symbol {
            Symbol::Range { fl, fh, ft } => self.update(fl, fh, ft),
            Symbol::Raw { bits, .. } => self.raw_take(bits),
        }
    }
}

/// Coding an item keeps the encoder state valid.
pub proof fn lemma_put_valid(enc: EncoderState, symbol: Symbol)
    requires
        enc.valid(),
        symbol.valid(),
    ensures
        enc.put(symbol).valid(),
{
    match symbol {
        Symbol::Range { fl, fh, ft } => {
            lemma_symbol_interval(enc.rng, fl, fh, ft);
            let from = enc.offset_of(fl, ft);
            let to = enc.rng - (enc.rng / ft) * (ft - fh);
            lemma_narrow_valid(enc, from, to - from);
        },
        Symbol::Raw { value, bits } => {
            lemma_raw_append(enc.raw, enc.raw_bits, value, bits);
        },
    }
}

/// Appending raw bits: the result fits, and both parts can be read back.
pub proof fn lemma_raw_append(raw: int, raw_bits: nat, value: int, bits: nat)
    requires
        0 <= raw < pow2(raw_bits),
        0 <= value < pow2(bits),
    ensures
        0 <= raw + value * pow2(raw_bits) < pow2(raw_bits + bits),
        raw + value * pow2(raw_bits) >= raw,
{
    lemma_pow2_adds(raw_bits, bits);
    let a = pow2(raw_bits) as int;
    let b = pow2(bits) as int;
    assert(0 <= value * a && raw + value * a < a * b) by (nonlinear_arith)
        requires
            0 <= raw < a,
            0 <= value < b,
    ;
}

/// Reading the low bits of a number and the bits above them.
pub proof fn lemma_raw_split(w: int, raw: int, raw_bits: nat, value: int, bits: nat)
    requires
        0 <= raw < pow2(raw_bits),
        0 <= value < pow2(bits),
        w % pow2(raw_bits + bits) as int == raw + value * pow2(raw_bits),
    ensures
        w % pow2(raw_bits) as int == raw,
        (w / pow2(raw_bits) as int) % pow2(bits) as int == value,
{
    lemma_pow2_adds(raw_bits, bits);
    lemma_pow2_pos(raw_bits);
    lemma_pow2_pos(bits);
    lemma_pow2_pos(raw_bits + bits);
    let a = pow2(raw_bits) as int;
    let b = pow2(bits) as int;
    let q = w / (a * b);
    lemma_fundamental_div_mod(w, a * b);
    assert(w == (q * b + value) * a + raw) by (nonlinear_arith)
        requires
            w == (a * b) * q + (raw + value * a),
    ;
    lemma_fundamental_div_mod_converse(w, a, q * b + value, raw);
    lemma_fundamental_div_mod_converse(q * b + value, b, q, value);
}

/// A frame that carries a longer message carries its beginning.
pub proof fn lemma_put_carried(enc: EncoderState, symbol: Symbol, data: Seq<u8>)
    requires
        enc.valid(),
        symbol.valid(),
        enc.put(symbol).carried_by(data),
    ensures
        enc.carried_by(data),
{
    match symbol {
        Symbol::Range { fl, fh, ft } => {
            lemma_symbol_interval(enc.rng, fl, fh, ft);
            let from = enc.offset_of(fl, ft);
            let to = enc.rng - (enc.rng / ft) * (ft - fh);
            lemma_narrow_valid(enc, from, to - from);
            lemma_narrow_contains(enc, from, to - from, data);
        },
        Symbol::Raw { value, bits } => {
            lemma_raw_split(whole(data), enc.raw, enc.raw_bits, value, bits);
        },
    }
}

/// One step of the round trip: a decoder in step with the encoder reads the
/// next item of any frame that carries it, and stays in step.
pub proof fn law_step_round_trip(dec: DecoderState, enc: EncoderState, symbol: Symbol)
    requires
        enc.valid(),
        symbol.valid(),
        dec.follows(enc),
        enc.put(symbol).carried_by(dec.data),
    ensures
        dec.reads(symbol),
        dec.take(symbol).follows(enc.put(symbol)),
        dec.take(symbol).data == dec.data,
{
    match symbol {
        Symbol::Range { fl, fh, ft } => {
            lemma_symbol_interval(enc.rng, fl, fh, ft);
            let from = enc.offset_of(fl, ft);
            let to = enc.rng - (enc.rng / ft) * (ft - fh);
            lemma_frequency(dec, enc, fl, fh, ft);
            lemma_narrow_follows(dec, enc, from, to - from);
        },
        Symbol::Raw { value, bits } => {
            lemma_raw_split(whole(dec.data), enc.raw, enc.raw_bits, value, bits);
        },
    }
}

/// The symbols of a model share the range: each begins where the one before
/// ends, the last ends with the range, and each is as wide as its frequencies
/// times the range over the total, rounded down; what that leaves goes to the
/// first.
pub proof fn law_symbols_share_range(enc: EncoderState, fl: int, fh: int, ft: int)
    requires
        enc.valid(),
        0 <= fl < fh <= ft <= 65536,
    ensures
        ({
            let r = enc.rng / ft;
            let from = enc.offset_of(fl, ft);
            let to = if fh < ft {
                enc.offset_of(fh, ft)
            } else {
                enc.rng
            };
            &&& enc.encode(fl, fh, ft) == enc.narrow(from, to - from)
            &&& r >= 1 && r * ft <= enc.rng < (r + 1) * ft
            &&& fl > 0 ==> to - from == r * (fh - fl)
            &&& fl == 0 ==> from == 0 && to - from == r * fh + (enc.rng - r * ft)
        }),
{
    lemma_symbol_interval(enc.rng, fl, fh, ft);
    let r = enc.rng / ft;
    lemma_fundamental_div_mod(enc.rng, ft);
    let m = enc.rng % ft;
    assert(r >= 1 && r * ft <= enc.rng < (r + 1) * ft) by (nonlinear_arith)
        requires
            0 < ft <= 65536 < enc.rng,
            enc.rng == ft * r + m,
            0 <= m < ft,
    ;
    assert(r * (ft - fl) - r * (ft - fh) == r * (fh - fl)) by (nonlinear_arith);
    assert(r * (ft - fh) == r * ft - r * fh) by (nonlinear_arith);
    if fh == ft {
        assert(r * (ft - fh) == 0) by (nonlinear_arith)
            requires
                fh == ft,
        ;
    }
}

/// A symbol that is certain takes nothing.
pub proof fn law_certain_symbol_is_free(enc: EncoderState, ft: int)
    requires
        enc.valid(),
        1 <= ft <= 65536,
    ensures
        enc.encode(0, ft, ft) == enc,
{
    law_symbols_share_range(enc, 0, ft, ft);
}

} // verus!
