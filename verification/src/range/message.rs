//! Messages: sequences of coded items, and their round trip through a frame.

use vstd::arithmetic::power2::{
    lemma2_to64, lemma_pow2_pos, lemma_pow2_strictly_increases, pow2,
};
use vstd::prelude::*;

use super::model::{
    icdf_codable, law_bit_round_trip, law_icdf_round_trip, law_step_round_trip,
    law_uint_round_trip, lemma_icdf_bounds, lemma_narrow_bits, lemma_narrow_contains,
    lemma_narrow_valid, lemma_put_carried, lemma_put_valid, lemma_symbol_interval,
    lemma_uint_parts, uint_raw_bits, DecoderState, EncoderState, Symbol,
};

verus! {

/// One coded item: a symbol with its frequencies, a run of raw bits, a symbol
/// of an inverse CDF table, one of two outcomes, or a uniform value.
pub enum Item {
    Plain(Symbol),
    Table { k: int, icdf: Seq<u8>, ftb: nat },
    Bit { bit: bool, logp: nat },
    Uint { t: int, ft: int },
}

impl Item {
    /// Whether the item can be coded and read back.
    pub open spec fn valid(self) -> bool {
        match self {
            Item::Plain(symbol) => symbol.valid(),
            Item::Table { k, icdf, ftb } => icdf_codable(icdf, k, ftb) && (forall|i: int, j: int|
                0 <= i <= j < icdf.len() ==> icdf[i] >= icdf[j]),
            Item::Bit { logp, .. } => 1 <= logp <= 16,
            Item::Uint { t, ft } => 2 <= ft <= u32::MAX && 0 <= t < ft,
        }
    }
}

impl EncoderState {
    /// Codes one item.
    pub open spec fn write(self, item: Item) -> Self {
        match item {
            Item::Plain(symbol) => self.put(symbol),
            Item::Table { k, icdf, ftb } => self.encode_icdf(k, icdf, ftb),
            Item::Bit { bit, logp } => self.encode_bit(bit, logp),
            Item::Uint { t, ft } => self.encode_uint(t, ft),
        }
    }

    /// Whether the item can be coded from here.
    pub open spec fn accepts(self, item: Item) -> bool {
        match item {
            Item::Plain(Symbol::Range { fl, fh, ft }) => 0 <= fl < fh <= ft <= 65536,
            Item::Plain(Symbol::Raw { value, bits }) => 0 <= value < pow2(bits),
            Item::Table { k, icdf, ftb } => icdf_codable(icdf, k, ftb),
            Item::Bit { bit, logp } => if bit {
                pow2(logp) <= self.rng
            } else {
                logp >= 1
            },
            Item::Uint { t, ft } => 2 <= ft <= u32::MAX && 0 <= t < ft,
        }
    }

    /// Codes the first `n` items of a message.
    pub open spec fn write_all(self, message: Seq<Item>, n: nat) -> Self
        decreases n,
    {
        if n == 0 {
            self
        } else {
            self.write_all(message, (n - 1) as nat).write(message[n - 1])
        }
    }
}

impl DecoderState {
    /// Whether the decoder reads this item next.
    pub open spec fn finds(self, item: Item) -> bool {
        match item {
            Item::Plain(symbol) => self.reads(symbol),
            Item::Table { k, icdf, ftb } => self.icdf_selects(k, icdf, ftb),
            Item::Bit { bit, logp } => self.next_bit(logp) == bit,
            Item::Uint { t, ft } => self.next_uint(ft) == t,
        }
    }

    /// Takes one item.
    pub open spec fn read(self, item: Item) -> Self {
        match item {
            Item::Plain(symbol) => self.take(symbol),
            Item::Table { k, icdf, ftb } => self.take_icdf(k, icdf, ftb),
            Item::Bit { bit, logp } => self.take_bit(bit, logp),
            Item::Uint { ft, .. } => self.take_uint(ft),
        }
    }

    /// Takes the first `n` items of a message.
    pub open spec fn read_all(self, message: Seq<Item>, n: nat) -> Self
        decreases n,
    {
        if n == 0 {
            self
        } else {
            self.read_all(message, (n - 1) as nat).read(message[n - 1])
        }
    }
}

proof fn lemma_bit_interval(enc: EncoderState, bit: bool, logp: nat)
    requires
        enc.valid(),
        1 <= logp <= 16,
    ensures
        ({
            let ft = pow2(logp) as int;
            let (fl, fh) = if bit {
                (ft - 1, ft)
            } else {
                (0, ft - 1)
            };
            let from = enc.offset_of(fl, ft);
            let to = enc.rng - (enc.rng / ft) * (ft - fh);
            0 <= from < to <= enc.rng && enc.encode_bit(bit, logp) == enc.narrow(from, to - from)
        }),
{
    lemma2_to64();
    lemma_pow2_pos(logp);
    lemma_pow2_strictly_increases(0, logp);
    if logp < 16 {
        lemma_pow2_strictly_increases(logp, 16);
    }
    let ft = pow2(logp) as int;
    let (fl, fh) = if bit {
        (ft - 1, ft)
    } else {
        (0, ft - 1)
    };
    lemma_symbol_interval(enc.rng, fl, fh, ft);
}

/// Coding an item keeps the encoder state valid, a table symbol or an outcome
/// takes at most 24 bits, and a frame that carries the item carries what was
/// coded before.
pub proof fn lemma_write(enc: EncoderState, item: Item, data: Seq<u8>)
    requires
        enc.valid(),
        item.valid(),
    ensures
        enc.write(item).valid(),
        item is Table || item is Bit ==> enc.write(item).nbits_total() <= enc.nbits_total() + 24,
        enc.write(item).carried_by(data) ==> enc.carried_by(data),
{
    match item {
        Item::Plain(symbol) => {
            lemma_put_valid(enc, symbol);
            if enc.put(symbol).carried_by(data) {
                lemma_put_carried(enc, symbol, data);
            }
        },
        Item::Table { k, icdf, ftb } => {
            lemma_icdf_bounds(enc, k, icdf, ftb);
            let (from, to) = enc.icdf_bounds(k, icdf, ftb);
            lemma_narrow_valid(enc, from, to - from);
            lemma_narrow_bits(enc, from, to - from);
            if enc.write(item).carried_by(data) {
                lemma_narrow_contains(enc, from, to - from, data);
            }
        },
        Item::Bit { bit, logp } => {
            lemma_bit_interval(enc, bit, logp);
            let ft = pow2(logp) as int;
            let (fl, fh) = if bit {
                (ft - 1, ft)
            } else {
                (0, ft - 1)
            };
            let from = enc.offset_of(fl, ft);
            let to = enc.rng - (enc.rng / ft) * (ft - fh);
            lemma_narrow_valid(enc, from, to - from);
            lemma_narrow_bits(enc, from, to - from);
            if enc.write(item).carried_by(data) {
                lemma_narrow_contains(enc, from, to - from, data);
            }
        },
        Item::Uint { t, ft } => {
            lemma_uint_parts(t, ft);
            let s = uint_raw_bits(ft);
            let unit = pow2(s) as int;
            if s == 0 {
                let symbol = Symbol::Range { fl: t, fh: t + 1, ft };
                lemma_put_valid(enc, symbol);
                if enc.write(item).carried_by(data) {
                    lemma_put_carried(enc, symbol, data);
                }
            } else {
                let total = (ft - 1) / unit + 1;
                let first = Symbol::Range { fl: t / unit, fh: t / unit + 1, ft: total };
                let second = Symbol::Raw { value: t % unit, bits: s };
                lemma_put_valid(enc, first);
                lemma_put_valid(enc.put(first), second);
                if enc.write(item).carried_by(data) {
                    lemma_put_carried(enc.put(first), second, data);
                    lemma_put_carried(enc, first, data);
                }
            }
        },
    }
}

/// One step of the round trip: a decoder in step with the encoder finds the
/// next item in any frame that carries it, and stays in step.
pub proof fn law_item_round_trip(dec: DecoderState, enc: EncoderState, item: Item)
    requires
        enc.valid(),
        item.valid(),
        dec.follows(enc),
        enc.write(item).carried_by(dec.data),
    ensures
        dec.finds(item),
        dec.read(item).follows(enc.write(item)),
        dec.read(item).data == dec.data,
{
    match item {
        Item::Plain(symbol) => law_step_round_trip(dec, enc, symbol),
        Item::Table { k, icdf, ftb } => law_icdf_round_trip(dec, enc, k, icdf, ftb),
        Item::Bit { bit, logp } => law_bit_round_trip(dec, enc, bit, logp),
        Item::Uint { t, ft } => law_uint_round_trip(dec, enc, t, ft),
    }
}

/// Every state that a valid message leads to is valid.
pub proof fn lemma_write_all(enc: EncoderState, message: Seq<Item>, n: nat)
    requires
        enc.valid(),
        forall|i: int| 0 <= i < message.len() ==> (#[trigger] message[i]).valid(),
        n <= message.len(),
    ensures
        enc.write_all(message, n).valid(),
    decreases n,
{
    if n > 0 {
        lemma_write_all(enc, message, (n - 1) as nat);
        lemma_write(enc.write_all(message, (n - 1) as nat), message[n - 1], seq![]);
    }
}

/// A frame that carries a message carries each of its beginnings.
pub proof fn lemma_write_prefix(enc: EncoderState, message: Seq<Item>, n: nat, data: Seq<u8>)
    requires
        enc.valid(),
        forall|i: int| 0 <= i < message.len() ==> (#[trigger] message[i]).valid(),
        n <= message.len(),
        enc.write_all(message, message.len()).carried_by(data),
    ensures
        enc.write_all(message, n).carried_by(data),
    decreases message.len() - n,
{
    if n < message.len() {
        lemma_write_prefix(enc, message, n + 1, data);
        lemma_write_all(enc, message, n);
        lemma_write(enc.write_all(message, n), message[n as int], data);
    }
}

/// The round trip: in any frame that carries a message, a decoder in step with
/// the encoder finds every item in order, and after each it agrees with the
/// encoder on the range size and on the number of bits used.
pub proof fn law_message_round_trip(
    dec: DecoderState,
    enc: EncoderState,
    message: Seq<Item>,
    n: nat,
)
    requires
        enc.valid(),
        dec.follows(enc),
        forall|i: int| 0 <= i < message.len() ==> (#[trigger] message[i]).valid(),
        enc.write_all(message, message.len()).carried_by(dec.data),
        n <= message.len(),
    ensures
        n < message.len() ==> dec.read_all(message, n).finds(message[n as int]),
        dec.read_all(message, n).follows(enc.write_all(message, n)),
        dec.read_all(message, n).rng == enc.write_all(message, n).rng,
        dec.read_all(message, n).nbits_total() == enc.write_all(message, n).nbits_total(),
        dec.read_all(message, n).data == dec.data,
    decreases n,
{
    lemma_write_all(enc, message, n);
    lemma_write_prefix(enc, message, n, dec.data);
    if n > 0 {
        let m = (n - 1) as nat;
        law_message_round_trip(dec, enc, message, m);
        lemma_write_all(enc, message, m);
        law_item_round_trip(dec.read_all(message, m), enc.write_all(message, m), message[m as int]);
    }
    if n < message.len() {
        lemma_write_prefix(enc, message, n + 1, dec.data);
        law_item_round_trip(
            dec.read_all(message, n),
            enc.write_all(message, n),
            message[n as int],
        );
    }
}

impl DecoderState {
    /// Whether the decoder reads all items of a message next, in order.
    pub open spec fn finds_all(self, message: Seq<Item>) -> bool {
        forall|n: int|
            0 <= n < message.len() ==> self.read_all(message, n as nat).finds(
                #[trigger] message[n],
            )
    }
}

/// In a frame that carries a message, a decoder in step with the encoder finds
/// all of it.
pub proof fn law_finds_message(dec: DecoderState, enc: EncoderState, message: Seq<Item>)
    requires
        enc.valid(),
        dec.follows(enc),
        forall|i: int| 0 <= i < message.len() ==> (#[trigger] message[i]).valid(),
        enc.write_all(message, message.len()).carried_by(dec.data),
    ensures
        dec.finds_all(message),
        dec.read_all(message, message.len()).follows(enc.write_all(message, message.len())),
{
    assert forall|n: int| 0 <= n < message.len() implies dec.read_all(message, n as nat).finds(
        #[trigger] message[n],
    ) by {
        law_message_round_trip(dec, enc, message, n as nat);
    }
    law_message_round_trip(dec, enc, message, message.len());
}

/// Whether two messages consist of symbols of the same tables.
pub open spec fn same_tables(a: Seq<Item>, b: Seq<Item>) -> bool {
    &&& a.len() == b.len()
    &&& forall|i: int|
        0 <= i < a.len() ==> match (#[trigger] a[i], b[i]) {
            (Item::Table { icdf: s, ftb: f, .. }, Item::Table { icdf: t, ftb: g, .. }) => s == t
                && f == g,
            _ => false,
        }
}

/// A decoder finds no more than one message of symbols of given tables.
#[verifier::spinoff_prover]
#[verifier::rlimit(40)]
pub proof fn law_message_unique(dec: DecoderState, a: Seq<Item>, b: Seq<Item>, n: nat)
    requires
        same_tables(a, b),
        dec.finds_all(a),
        dec.finds_all(b),
        n <= a.len(),
    ensures
        dec.read_all(a, n) == dec.read_all(b, n),
        forall|i: int| 0 <= i < n ==> #[trigger] a[i] == b[i],
    decreases n,
{
    if n > 0 {
        let m = (n - 1) as nat;
        law_message_unique(dec, a, b, m);
        let state = dec.read_all(a, m);
        assert(state.finds(a[m as int]));
        assert(state.finds(b[m as int]));
        match (a[m as int], b[m as int]) {
            (Item::Table { k: j, icdf, ftb }, Item::Table { k, .. }) => {
                lemma_table_unique(state, j, k, icdf, ftb);
            },
            _ => {},
        }
    }
}

proof fn lemma_table_unique(dec: DecoderState, j: int, k: int, icdf: Seq<u8>, ftb: nat)
    requires
        dec.icdf_selects(j, icdf, ftb),
        dec.icdf_selects(k, icdf, ftb),
    ensures
        j == k,
{
}

/// At the start of a frame, the decoder is in step with the encoder.
pub proof fn law_start_in_step(data: Seq<u8>)
    ensures
        EncoderState::initial().valid(),
        DecoderState::initial(data).follows(EncoderState::initial()),
        DecoderState::initial(data).data == data,
{
    lemma2_to64();
}

} // verus!
