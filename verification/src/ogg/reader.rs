//! Reassembling the packets of one logical bitstream from its Ogg pages.

use std::collections::VecDeque;

use vstd::prelude::*;
use vstd::slice::slice_subrange;

use super::page::{
    laced, lemma_next_page, next_page, Page, PageContents, PageReader, NO_GRANULE,
};

verus! {

/// Defensive cap on a single reassembled packet (16 MiB). Real Opus packets
/// are at most 61 440 bytes; anything near this cap is garbage input.
pub const MAX_PACKET_LEN: usize = 16_777_216;

/// The contents of a reassembled packet.
#[verifier::ext_equal]
pub struct OggPacketContents {
    pub data: Seq<u8>,
    pub granule_position: u64,
    pub eos: bool,
    pub completes_page: bool,
}

/// What a reader remembers between two pages.
#[verifier::ext_equal]
pub struct Assembly {
    /// What is buffered of a packet that continues on the next page.
    pub partial: Seq<u8>,
    /// Whether a packet continues on the next page.
    pub have_partial: bool,
    /// Whether that packet will be dropped when it completes.
    pub poisoned: bool,
    /// The sequence number of the last page.
    pub last_sequence: Option<u32>,
}

/// The packets completed so far on a page, each with the index of its last
/// segment, and the packet in flight.
#[verifier::ext_equal]
pub struct Lacing {
    pub partial: Seq<u8>,
    pub have_partial: bool,
    pub poisoned: bool,
    pub done: Seq<(Seq<u8>, int)>,
}

impl Assembly {
    /// The state before the first page.
    pub open spec fn initial() -> Self {
        Assembly { partial: seq![], have_partial: false, poisoned: false, last_sequence: None }
    }

    /// Whether a page follows the last one without a gap.
    pub open spec fn consecutive(self, page: PageContents) -> bool {
        self.last_sequence matches Some(prev) ==> page.sequence == (prev + 1) % 0x1_0000_0000
    }

    /// The lacing state at the start of a page. A packet that spans pages is
    /// lost when a page is missing, or when one page ends in the middle of it
    /// and the next does not continue it. The end of such a packet, on a page
    /// that continues it, is dropped too.
    pub open spec fn opened(self, page: PageContents) -> Lacing {
        if self.consecutive(page) && page.continued == self.have_partial {
            Lacing {
                partial: self.partial,
                have_partial: self.have_partial,
                poisoned: self.poisoned,
                done: seq![],
            }
        } else {
            Lacing {
                partial: seq![],
                have_partial: page.continued,
                poisoned: page.continued,
                done: seq![],
            }
        }
    }

    /// The state after a page, and the packets that complete on it.
    pub open spec fn ingested(self, page: PageContents) -> (Self, Seq<OggPacketContents>) {
        let end = self.opened(page).laced_all(page, page.segments.len() as int);
        (
            Assembly {
                partial: end.partial,
                have_partial: end.have_partial,
                poisoned: end.poisoned,
                last_sequence: Some(page.sequence),
            },
            end.packets(page),
        )
    }
}

/// Whether no packet completes behind segment `k` of a page.
pub open spec fn last_completing(segments: Seq<u8>, k: int) -> bool {
    forall|j: int| k < j < segments.len() ==> segments[j] == 255
}

impl Lacing {
    /// The state after segment `k` of a page. A segment of 255 bytes goes on;
    /// a shorter one completes the packet. A packet over the cap is dropped
    /// whole.
    pub open spec fn laced(self, page: PageContents, k: int) -> Self {
        let at = laced(page.segments, k) as int;
        let len = page.segments[k] as int;
        let poisoned = self.poisoned || self.partial.len() + len > MAX_PACKET_LEN;
        let partial = if poisoned {
            seq![]
        } else {
            self.partial + page.body.subrange(at, at + len)
        };
        if len < 255 {
            Lacing {
                partial: seq![],
                have_partial: false,
                poisoned: false,
                done: if poisoned {
                    self.done
                } else {
                    self.done.push((partial, k))
                },
            }
        } else {
            Lacing { partial, have_partial: true, poisoned, done: self.done }
        }
    }

    /// The state after the first `k` segments of a page.
    pub open spec fn laced_all(self, page: PageContents, k: int) -> Self
        decreases k,
    {
        if k <= 0 {
            self
        } else {
            self.laced_all(page, k - 1).laced(page, k - 1)
        }
    }

    /// The completed packets. The granule position of the page belongs to the
    /// last of them.
    pub open spec fn packets(self, page: PageContents) -> Seq<OggPacketContents> {
        Seq::new(
            self.done.len(),
            |i: int|
                OggPacketContents {
                    data: self.done[i].0,
                    granule_position: if i == self.done.len() - 1 {
                        page.granule_position
                    } else {
                        NO_GRANULE
                    },
                    eos: page.eos,
                    completes_page: last_completing(page.segments, self.done[i].1),
                },
        )
    }
}

/// The packets of the logical bitstream `serial` in a physical stream, from
/// position `pos` on, with what is remembered of the pages before.
pub open spec fn packets_from(data: Seq<u8>, pos: nat, serial: u32, state: Assembly) -> Seq<
    OggPacketContents,
>
    decreases data.len() - pos,
{
    match next_page(data, pos) {
        (None, _) => seq![],
        (Some(page), next) => {
            proof {
                lemma_next_page(data, pos);
            }
            if page.serial == serial {
                let (after, packets) = state.ingested(page);
                packets + packets_from(data, next, serial, after)
            } else {
                packets_from(data, next, serial, state)
            }
        },
    }
}

/// A packet reassembled from one logical bitstream, with its page context.
#[derive(Debug, Clone, PartialEq, Eq)]
pub struct OggPacket {
    /// The packet payload.
    pub data: Vec<u8>,
    /// Granule position of the page on which this packet completed, or
    /// [`NO_GRANULE`] when it was not the page's last completed packet.
    pub granule_position: u64,
    /// This packet completed on a page with the end-of-stream flag.
    pub eos: bool,
    /// This packet is the last one completing on its page.
    pub completes_page: bool,
}

impl View for OggPacket {
    type V = OggPacketContents;

    open spec fn view(&self) -> OggPacketContents {
        OggPacketContents {
            data: self.data@,
            granule_position: self.granule_position,
            eos: self.eos,
            completes_page: self.completes_page,
        }
    }
}

/// The contents of a run of packets.
pub open spec fn packet_views(packets: Seq<OggPacket>) -> Seq<OggPacketContents> {
    Seq::new(packets.len(), |i: int| packets[i]@)
}

/// Reassembles the packets of one logical bitstream, selected by its serial
/// number, from a physical Ogg stream.
///
/// A packet that spans pages is dropped, never partially decoded, when the
/// continued flag is missing, a sequence number is skipped, or the stream ends
/// mid-packet.
#[derive(Debug, Clone)]
pub struct PacketReader<'a> {
    pages: PageReader<'a>,
    serial: u32,
    /// Buffered partial packet that continues onto the next page.
    partial: Vec<u8>,
    /// Whether a packet continues onto the next page.
    have_partial: bool,
    /// The packet in flight will be discarded when it completes.
    poisoned: bool,
    /// Last seen sequence number, for gap detection.
    last_sequence: Option<u32>,
    /// Packets completed on the current page.
    ready: VecDeque<OggPacket>,
}

impl View for PacketReader<'_> {
    type V = Seq<OggPacketContents>;

    /// The packets that are still to come.
    closed spec fn view(&self) -> Seq<OggPacketContents> {
        packet_views(self.ready@) + packets_from(
            self.pages.stream(),
            self.pages.offset(),
            self.serial,
            self.assembly(),
        )
    }
}

/// Whether a packet completes behind segment `k` of a page.
fn completes_later(segments: &[u8], k: usize) -> (later: bool)
    requires
        k < segments@.len(),
    ensures
        later == !last_completing(segments@, k as int),
{
    let n = segments.len();
    let mut j: usize = k + 1;
    while j < n
        invariant
            k < j <= n,
            n == segments@.len(),
            forall|i: int| k < i < j ==> segments@[i] == 255,
        decreases n - j,
    {
        if segments[j] < 255 {
            return true;
        }
        j = j + 1;
    }
    false
}

impl<'a> PacketReader<'a> {
    spec fn assembly(self) -> Assembly {
        Assembly {
            partial: self.partial@,
            have_partial: self.have_partial,
            poisoned: self.poisoned,
            last_sequence: self.last_sequence,
        }
    }

    /// Creates a reader for the logical bitstream identified by `serial`.
    #[must_use]
    pub fn new(data: &'a [u8], serial: u32) -> (reader: Self)
        ensures
            reader@ == packets_from(data@, 0, serial, Assembly::initial()),
    {
        let reader = PacketReader {
            pages: PageReader::new(data),
            serial,
            partial: Vec::new(),
            have_partial: false,
            poisoned: false,
            last_sequence: None,
            ready: VecDeque::new(),
        };
        assert(reader.assembly() =~= Assembly::initial());
        assert(packet_views(reader.ready@) =~= seq![]);
        assert(reader@ =~= packets_from(data@, 0, serial, Assembly::initial()));
        reader
    }

    /// Splits one page's body into packets, honouring continuation state.
    fn ingest(&mut self, page: &Page<'a>)
        requires
            page@.body.len() == laced(page@.segments, page@.segments.len() as int),
        ensures
            final(self).pages == old(self).pages,
            final(self).serial == old(self).serial,
            final(self).assembly() == old(self).assembly().ingested(page@).0,
            packet_views(final(self).ready@) == packet_views(old(self).ready@)
                + old(self).assembly().ingested(page@).1,
    {
        let ghost start = self.assembly();
        let consecutive = match self.last_sequence {
            None => true,
            Some(prev) => page.sequence == prev.wrapping_add(1),
        };
        self.last_sequence = Some(page.sequence);
        let mut partial: Vec<u8> = Vec::new();
        core::mem::swap(&mut partial, &mut self.partial);
        let mut have_partial = self.have_partial;
        let mut poisoned = self.poisoned;
        if !consecutive || page.continued != have_partial {
            // Whatever is buffered is unrecoverable, and so is the rest of a
            // packet that this page continues.
            partial.clear();
            have_partial = page.continued;
            poisoned = page.continued;
        }
        let ghost open = start.opened(page@);
        assert(partial@ =~= open.partial);

        let segments = page.segments;
        let body = page.body;
        let n = segments.len();
        let body_len = body.len();
        let mut offset: usize = 0;
        let mut k: usize = 0;
        // The last packet that completed, whose granule position is not yet
        // known.
        let mut held: Option<OggPacket> = None;
        let ghost mut state = open;
        assert(packet_views(self.ready@) =~= packet_views(old(self).ready@) + without_last(
            state,
            page@,
        ));
        while k < n
            invariant
                k <= n,
                n == segments@.len(),
                segments@ == page@.segments,
                body@ == page@.body,
                body_len == body@.len(),
                body@.len() == laced(segments@, n as int),
                offset == laced(segments@, k as int),
                state == open.laced_all(page@, k as int),
                partial@ == state.partial,
                have_partial == state.have_partial,
                poisoned == state.poisoned,
                self.pages == old(self).pages,
                self.serial == old(self).serial,
                self.last_sequence == Some(page.sequence),
                packet_views(self.ready@) == packet_views(old(self).ready@) + without_last(
                    state,
                    page@,
                ),
                match held {
                    None => state.done.len() == 0,
                    Some(p) => state.done.len() > 0 && p@ == (OggPacketContents {
                        granule_position: NO_GRANULE,
                        ..state.packets(page@).last()
                    }),
                },
            decreases n - k,
        {
            let ghost next = state.laced(page@, k as int);
            proof {
                super::writer::lemma_laced_monotonic(segments@, k + 1, n as int);
            }
            let lacing = segments[k];
            let len = lacing as usize;
            if partial.len() > MAX_PACKET_LEN || len > MAX_PACKET_LEN - partial.len() {
                // Drop the whole packet once it completes, rather than give
                // out a truncated one.
                poisoned = true;
            }
            if poisoned {
                partial.clear();
            } else {
                let piece = slice_subrange(body, offset, offset + len);
                assert(piece@ =~= body@.subrange(offset as int, offset + len));
                let ghost before = partial@;
                partial.extend_from_slice(piece);
                assert(partial@ =~= before + piece@);
            }
            offset = offset + len;
            have_partial = true;
            if lacing < 255 {
                // The packet is complete.
                let mut data: Vec<u8> = Vec::new();
                core::mem::swap(&mut data, &mut partial);
                let was_poisoned = poisoned;
                poisoned = false;
                have_partial = false;
                if !was_poisoned {
                    let packet = OggPacket {
                        data,
                        granule_position: NO_GRANULE,
                        eos: page.eos,
                        completes_page: !completes_later(segments, k),
                    };
                    let ghost queued = self.ready@;
                    match held {
                        Some(previous) => {
                            self.ready.push_back(previous);
                        },
                        None => {},
                    }
                    proof {
                        assert(next.packets(page@).last() =~= (OggPacketContents {
                            granule_position: page@.granule_position,
                            ..packet@
                        }));
                        if state.done.len() > 0 {
                            assert(packet_views(self.ready@) =~= packet_views(queued).push(
                                (OggPacketContents {
                                    granule_position: NO_GRANULE,
                                    ..state.packets(page@).last()
                                }),
                            ));
                        }
                        assert(without_last(next, page@) =~= (if state.done.len() > 0 {
                            without_last(state, page@).push(
                                (OggPacketContents {
                                    granule_position: NO_GRANULE,
                                    ..state.packets(page@).last()
                                }),
                            )
                        } else {
                            without_last(state, page@)
                        }));
                        assert(packet_views(self.ready@) =~= packet_views(old(self).ready@)
                            + without_last(next, page@));
                    }
                    held = Some(packet);
                }
            }
            proof {
                state = next;
            }
            k = k + 1;
        }
        self.partial = partial;
        self.have_partial = have_partial;
        self.poisoned = poisoned;
        let ghost queued = self.ready@;
        // The page's granule position belongs to the last packet completed on
        // it.
        match held {
            Some(mut packet) => {
                packet.granule_position = page.granule_position;
                self.ready.push_back(packet);
                proof {
                    assert(packet@ =~= state.packets(page@).last());
                    assert(packet_views(self.ready@) =~= packet_views(queued).push(packet@));
                    assert(state.packets(page@) =~= without_last(state, page@).push(packet@));
                    assert(packet_views(self.ready@) =~= packet_views(old(self).ready@)
                        + state.packets(page@));
                }
            },
            None => {
                proof {
                    assert(without_last(state, page@) =~= state.packets(page@));
                }
            },
        }
        assert(self.assembly() =~= start.ingested(page@).0);
    }

    /// The next packet, if there is one.
    pub fn next(&mut self) -> (res: Option<OggPacket>)
        ensures
            match res {
                Some(packet) => old(self)@.len() > 0 && packet@ == old(self)@[0] && final(self)@
                    == old(self)@.drop_first(),
                None => old(self)@.len() == 0 && final(self)@.len() == 0,
            },
    {
        loop
            invariant
                self@ == old(self)@,
            decreases self.pages.stream().len() - self.pages.offset(),
        {
            let ghost before = *self;
            match self.ready.pop_front() {
                Some(packet) => {
                    proof {
                        assert(packet_views(before.ready@).drop_first() =~= packet_views(
                            self.ready@,
                        ));
                        assert(self@ =~= before@.drop_first());
                    }
                    return Some(packet);
                },
                None => {},
            }
            assert(packet_views(self.ready@) =~= seq![]);
            proof {
                lemma_next_page(self.pages.stream(), self.pages.offset());
            }
            match self.pages.next() {
                None => {
                    proof {
                        super::page::lemma_next_page_again(
                            before.pages.stream(),
                            before.pages.offset(),
                        );
                        assert(self@ =~= seq![]);
                    }
                    return None;
                },
                Some(page) => {
                    let ghost taken = *self;
                    if page.serial == self.serial {
                        self.ingest(&page);
                        proof {
                            assert(packet_views(taken.ready@) =~= seq![]);
                            assert(self@ =~= before@);
                        }
                    } else {
                        assert(self@ =~= before@);
                    }
                },
            }
        }
    }
}

/// The completed packets of a page but the last, none of which has a granule
/// position.
pub open spec fn without_last(state: Lacing, page: PageContents) -> Seq<OggPacketContents> {
    if state.done.len() == 0 {
        seq![]
    } else {
        state.packets(page).drop_last()
    }
}

} // verus!
