//! Symbols that are coded only while the frame has bits left.
//!
//! Encoder and decoder make the same test before each such symbol, from the
//! bits that both have used; so no bit says whether the symbol is there.

use vstd::prelude::*;

use crate::range::message::{law_item_round_trip, lemma_write, Item};
use crate::range::model::{DecoderState, EncoderState};
use crate::range::{bit_length, range_eighths, RangeEncoder};

verus! {

/// A symbol, and the test before it: with `need` added, the bits used must not
/// exceed `limit`. A fine test counts in eighths of a bit.
pub struct Guarded {
    pub item: Item,
    pub fine: bool,
    pub need: int,
    pub limit: int,
}

/// The bits used by a coder, rounded up, or the eighths of a bit.
pub open spec fn used(nbits_total: nat, rng: int, fine: bool) -> int {
    if fine {
        8 * nbits_total - range_eighths(rng)
    } else {
        nbits_total - bit_length(rng)
    }
}

impl EncoderState {
    /// Whether the test before a symbol succeeds.
    pub open spec fn fits_in(self, g: Guarded) -> bool {
        used(self.nbits_total(), self.rng, g.fine) + g.need <= g.limit
    }

    /// Codes a symbol if it fits.
    pub open spec fn offer(self, g: Guarded) -> Self {
        if self.fits_in(g) {
            self.write(g.item)
        } else {
            self
        }
    }

    /// Codes those of the first `n` symbols that fit.
    pub open spec fn offer_all(self, list: Seq<Guarded>, n: nat) -> Self
        decreases n,
    {
        if n == 0 {
            self
        } else {
            self.offer_all(list, (n - 1) as nat).offer(list[n - 1])
        }
    }
}

impl DecoderState {
    /// Whether the test before a symbol succeeds.
    pub open spec fn expects(self, g: Guarded) -> bool {
        used(self.nbits_total(), self.rng, g.fine) + g.need <= g.limit
    }

    /// Takes a symbol if it is expected.
    pub open spec fn accept(self, g: Guarded) -> Self {
        if self.expects(g) {
            self.read(g.item)
        } else {
            self
        }
    }

    /// Takes those of the first `n` symbols that are expected.
    pub open spec fn accept_all(self, list: Seq<Guarded>, n: nat) -> Self
        decreases n,
    {
        if n == 0 {
            self
        } else {
            self.accept_all(list, (n - 1) as nat).accept(list[n - 1])
        }
    }
}

/// Whether all symbols of a list can be coded and read back.
pub open spec fn list_valid(list: Seq<Guarded>) -> bool {
    forall|i: int| 0 <= i < list.len() ==> (#[trigger] list[i]).item.valid()
}

/// Every state of the encoder is valid, and a frame that carries the last one
/// carries each of them.
pub proof fn lemma_offer_all(enc: EncoderState, list: Seq<Guarded>, n: nat, data: Seq<u8>)
    requires
        enc.valid(),
        list_valid(list),
        n <= list.len(),
    ensures
        enc.offer_all(list, n).valid(),
        n > 0 && enc.offer_all(list, n).carried_by(data) ==> enc.offer_all(
            list,
            (n - 1) as nat,
        ).carried_by(data),
    decreases n,
{
    if n > 0 {
        lemma_offer_all(enc, list, (n - 1) as nat, data);
        lemma_write(enc.offer_all(list, (n - 1) as nat), list[n - 1].item, data);
    }
}

proof fn lemma_offer_prefix(enc: EncoderState, list: Seq<Guarded>, n: nat, data: Seq<u8>)
    requires
        enc.valid(),
        list_valid(list),
        n <= list.len(),
        enc.offer_all(list, list.len()).carried_by(data),
    ensures
        enc.offer_all(list, n).carried_by(data),
    decreases list.len() - n,
{
    if n < list.len() {
        lemma_offer_prefix(enc, list, n + 1, data);
        lemma_offer_all(enc, list, n + 1, data);
    }
}

/// In a frame that carries the symbols, a decoder in step with the encoder
/// expects exactly those that were coded, and finds them.
pub proof fn law_offers_round_trip(
    dec: DecoderState,
    enc: EncoderState,
    list: Seq<Guarded>,
    n: nat,
)
    requires
        enc.valid(),
        dec.follows(enc),
        list_valid(list),
        enc.offer_all(list, list.len()).carried_by(dec.data),
        n <= list.len(),
    ensures
        dec.accept_all(list, n).follows(enc.offer_all(list, n)),
        dec.accept_all(list, n).data == dec.data,
        n < list.len() ==> {
            let g = list[n as int];
            let d = dec.accept_all(list, n);
            &&& d.expects(g) <==> enc.offer_all(list, n).fits_in(g)
            &&& d.expects(g) ==> d.finds(g.item)
        },
    decreases n,
{
    lemma_offer_all(enc, list, n, dec.data);
    lemma_offer_prefix(enc, list, n, dec.data);
    if n > 0 {
        let m = (n - 1) as nat;
        law_offers_round_trip(dec, enc, list, m);
        lemma_offer_all(enc, list, m, dec.data);
        let e = enc.offer_all(list, m);
        let g = list[m as int];
        if e.fits_in(g) {
            law_item_round_trip(dec.accept_all(list, m), e, g.item);
        }
    }
    if n < list.len() {
        let e = enc.offer_all(list, n);
        let g = list[n as int];
        lemma_offer_prefix(enc, list, n + 1, dec.data);
        if e.fits_in(g) {
            law_item_round_trip(dec.accept_all(list, n), e, g.item);
        }
    }
}

/// One of two outcomes behind a test in whole bits.
pub open spec fn guarded_bit(bit: bool, logp: nat, need: int, limit: int) -> Guarded {
    Guarded { item: Item::Bit { bit, logp }, fine: false, need, limit }
}

/// Codes an outcome of probability `1 / 2^logp` if it fits.
pub fn offer_bit(enc: &mut RangeEncoder, bit: bool, logp: u32, need: u32, limit: u32)
    requires
        old(enc).inv(),
        1 <= logp <= 16,
        need <= 0x1000_0000,
        old(enc)@.nbits_total() + 24 <= 0x1000_0000,
    ensures
        final(enc).inv(),
        final(enc).size() == old(enc).size(),
        final(enc)@ == old(enc)@.offer(
            guarded_bit(bit, logp as nat, need as int, limit as int),
        ),
        final(enc)@.nbits_total() <= old(enc)@.nbits_total() + 24,
{
    if enc.tell() + need <= limit {
        proof {
            enc.lemma_valid();
            vstd::arithmetic::power2::lemma2_to64();
            if logp < 16 {
                vstd::arithmetic::power2::lemma_pow2_strictly_increases(logp as nat, 16);
            }
        }
        enc.encode_bit_logp(bit, logp);
    }
}

} // verus!
