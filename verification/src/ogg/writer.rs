//! Writing the packets of one logical bitstream as Ogg pages.

use vstd::prelude::*;
use vstd::slice::slice_subrange;

use super::bytes::{le_bytes, write_le};
use super::crc;
use super::crc::crc_of;
use super::page::{laced, PageContents, CAPTURE_PATTERN, MAX_SEGMENTS, NO_GRANULE};

verus! {

/// The flag byte of a page.
pub open spec fn page_flags(p: PageContents) -> u8 {
    ((if p.continued {
        1int
    } else {
        0
    }) + (if p.bos {
        2int
    } else {
        0
    }) + (if p.eos {
        4int
    } else {
        0
    })) as u8
}

/// A page with its checksum field set to zero.
pub open spec fn unstamped(p: PageContents) -> Seq<u8> {
    CAPTURE_PATTERN@ + seq![0u8, page_flags(p)] + le_bytes(p.granule_position as nat, 8)
        + le_bytes(p.serial as nat, 4) + le_bytes(p.sequence as nat, 4) + seq![
        0u8,
        0u8,
        0u8,
        0u8,
        p.segments.len() as u8,
    ] + p.segments + p.body
}

/// The byte form of a page.
pub open spec fn page_bytes(p: PageContents) -> Seq<u8> {
    let plain = unstamped(p);
    plain.take(22) + le_bytes(crc_of(0, plain) as nat, 4) + plain.skip(26)
}

/// The byte form of a run of pages.
pub open spec fn pages_bytes(pages: Seq<PageContents>) -> Seq<u8>
    decreases pages.len(),
{
    if pages.len() == 0 {
        seq![]
    } else {
        page_bytes(pages[0]) + pages_bytes(pages.drop_first())
    }
}

pub proof fn lemma_pages_bytes(a: Seq<PageContents>, b: Seq<PageContents>)
    ensures
        pages_bytes(a + b) == pages_bytes(a) + pages_bytes(b),
    decreases a.len(),
{
    if a.len() == 0 {
        assert(a + b =~= b);
        assert(pages_bytes(a) + pages_bytes(b) =~= pages_bytes(b));
    } else {
        lemma_pages_bytes(a.drop_first(), b);
        assert((a + b).drop_first() =~= a.drop_first() + b);
        assert(pages_bytes(a + b) =~= pages_bytes(a) + pages_bytes(b));
    }
}

pub proof fn lemma_page_bytes_single(p: PageContents)
    ensures
        pages_bytes(seq![p]) == page_bytes(p),
{
    assert(seq![p].drop_first() =~= seq![]);
    assert(pages_bytes(seq![p].drop_first()) =~= seq![]);
    assert(pages_bytes(seq![p]) =~= page_bytes(p));
}

/// The state of a writer: the identity of the stream and the page that is
/// being assembled.
#[verifier::ext_equal]
pub struct WriterState {
    pub serial: u32,
    pub sequence: u32,
    pub segments: Seq<u8>,
    pub body: Seq<u8>,
    pub granule: u64,
    pub continued: bool,
    pub first: bool,
}

impl WriterState {
    /// The state before anything was written.
    pub open spec fn initial(serial: u32) -> Self {
        WriterState {
            serial,
            sequence: 0,
            segments: seq![],
            body: seq![],
            granule: NO_GRANULE,
            continued: false,
            first: true,
        }
    }

    /// Whether the body is as long as the segment table says, and the page is
    /// not full.
    pub open spec fn valid(self) -> bool {
        &&& self.segments.len() < MAX_SEGMENTS
        &&& self.body.len() == laced(self.segments, self.segments.len() as int)
    }

    /// The page that is being assembled, as it would be emitted now.
    pub open spec fn page(self, eos: bool) -> PageContents {
        PageContents {
            continued: self.continued,
            bos: self.first,
            eos,
            granule_position: self.granule,
            serial: self.serial,
            sequence: self.sequence,
            segments: self.segments,
            body: self.body,
        }
    }

    /// The state after the page was emitted.
    pub open spec fn emitted(self) -> Self {
        WriterState {
            serial: self.serial,
            sequence: ((self.sequence + 1) % 0x1_0000_0000) as u32,
            segments: seq![],
            body: seq![],
            granule: NO_GRANULE,
            continued: false,
            first: false,
        }
    }

    /// The number of bytes in the next segment of a packet that has `rest`
    /// left.
    pub open spec fn piece(rest: Seq<u8>) -> int {
        if rest.len() < 255 {
            rest.len() as int
        } else {
            255
        }
    }

    /// The state after one more segment of a packet; the packet completes
    /// where the segment is shorter than 255 bytes.
    pub open spec fn laced_with(self, rest: Seq<u8>, granule: u64) -> Self {
        let take = Self::piece(rest);
        WriterState {
            segments: self.segments.push(take as u8),
            body: self.body + rest.take(take),
            granule: if take < 255 {
                granule
            } else {
                self.granule
            },
            ..self
        }
    }

    /// The state and the pages emitted after one more segment: a page leaves
    /// when it is full, and the next one then continues an unfinished packet.
    pub open spec fn stepped(self, rest: Seq<u8>, granule: u64, eos: bool) -> (
        Self,
        Seq<PageContents>,
    ) {
        let next = self.laced_with(rest, granule);
        let done = Self::piece(rest) < 255;
        if next.segments.len() == MAX_SEGMENTS {
            (WriterState { continued: !done, ..next.emitted() }, seq![next.page(eos && done)])
        } else {
            (next, seq![])
        }
    }

    /// The state and the pages emitted after all segments of what is left of a
    /// packet. One whose length is a multiple of 255 ends in an empty segment.
    pub open spec fn laced_all(self, rest: Seq<u8>, granule: u64, eos: bool) -> (
        Self,
        Seq<PageContents>,
    )
        decreases rest.len(),
    {
        let (next, pages) = self.stepped(rest, granule, eos);
        if rest.len() < 255 {
            (next, pages)
        } else {
            let (last, more) = next.laced_all(rest.skip(255), granule, eos);
            (last, pages + more)
        }
    }

    /// The state and the pages emitted after a flush.
    pub open spec fn flushed(self, eos: bool) -> (Self, Seq<PageContents>) {
        if self.segments.len() == 0 {
            (self, seq![])
        } else {
            (self.emitted(), seq![self.page(eos)])
        }
    }

    /// The state and the pages emitted after a packet: the last packet of the
    /// stream takes the pending page with it.
    pub open spec fn pushed(self, packet: Seq<u8>, granule: u64, eos: bool) -> (
        Self,
        Seq<PageContents>,
    ) {
        let (next, pages) = self.laced_all(packet, granule, eos);
        if eos {
            (next.flushed(true).0, pages + next.flushed(true).1)
        } else {
            (next, pages)
        }
    }
}

pub proof fn lemma_laced_same(a: Seq<u8>, b: Seq<u8>, k: int)
    requires
        k <= a.len(),
        k <= b.len(),
        forall|i: int| 0 <= i < k ==> a[i] == b[i],
    ensures
        laced(a, k) == laced(b, k),
    decreases k,
{
    if k > 0 {
        lemma_laced_same(a, b, k - 1);
    }
}

pub proof fn lemma_laced_monotonic(a: Seq<u8>, i: int, j: int)
    requires
        i <= j,
    ensures
        laced(a, i) <= laced(a, j),
    decreases j,
{
    if 0 < j && i < j {
        lemma_laced_monotonic(a, i, j - 1);
    }
}

pub proof fn lemma_laced_with(st: WriterState, rest: Seq<u8>, granule: u64)
    requires
        st.valid(),
    ensures
        st.laced_with(rest, granule).body.len() == laced(
            st.laced_with(rest, granule).segments,
            st.segments.len() as int + 1,
        ),
{
    lemma_laced_same(
        st.laced_with(rest, granule).segments,
        st.segments,
        st.segments.len() as int,
    );
}

/// Builds the pages of one logical bitstream.
///
/// Packets are appended with [`push`](Self::push); pages are emitted into an
/// output buffer when they are full (255 segments) or on a
/// [`flush`](Self::flush). The writer keeps the sequence numbers and the
/// flags of the pages.
#[derive(Debug, Clone)]
pub struct PageWriter {
    serial: u32,
    sequence: u32,
    /// Segment table of the page being assembled.
    segments: Vec<u8>,
    /// Body of the page being assembled.
    body: Vec<u8>,
    /// Granule position of the last packet completed on the page being
    /// assembled; [`NO_GRANULE`] when none has.
    page_granule: u64,
    /// The page being assembled starts mid-packet.
    continued: bool,
    /// The next emitted page is the first of the stream.
    first: bool,
}

impl View for PageWriter {
    type V = WriterState;

    closed spec fn view(&self) -> WriterState {
        WriterState {
            serial: self.serial,
            sequence: self.sequence,
            segments: self.segments@,
            body: self.body@,
            granule: self.page_granule,
            continued: self.continued,
            first: self.first,
        }
    }
}

impl PageWriter {
    /// Creates a writer for a logical bitstream with the given serial number.
    #[must_use]
    pub fn new(serial: u32) -> (writer: Self)
        ensures
            writer@ == WriterState::initial(serial),
            writer@.valid(),
    {
        PageWriter {
            serial,
            sequence: 0,
            segments: Vec::new(),
            body: Vec::new(),
            page_granule: NO_GRANULE,
            continued: false,
            first: true,
        }
    }

    /// Appends one packet, emitting full pages into `out` as needed.
    ///
    /// `granule_position` is the codec-defined position as of the end of this
    /// packet; it is recorded on the page where the packet completes. With
    /// `end_of_stream` the page that the packet completes on is flagged as the
    /// last and flushed at once.
    pub fn push(
        &mut self,
        out: &mut Vec<u8>,
        packet: &[u8],
        granule_position: u64,
        end_of_stream: bool,
    )
        requires
            old(self)@.valid(),
        ensures
            final(self)@.valid(),
            final(self)@ == old(self)@.pushed(packet@, granule_position, end_of_stream).0,
            final(out)@ == old(out)@ + pages_bytes(
                old(self)@.pushed(packet@, granule_position, end_of_stream).1,
            ),
    {
        let len = packet.len();
        let mut at: usize = 0;
        let ghost start = self@;
        let ghost mut pages: Seq<PageContents> = seq![];
        assert(packet@.skip(0) =~= packet@);
        assert(pages + start.laced_all(packet@, granule_position, end_of_stream).1
            =~= start.laced_all(packet@, granule_position, end_of_stream).1);
        assert(old(out)@ + pages_bytes(pages) =~= old(out)@);
        loop
            invariant_except_break
                at <= len,
                len == packet@.len(),
                self@.valid(),
                start.laced_all(packet@, granule_position, end_of_stream).0 == self@.laced_all(
                    packet@.skip(at as int),
                    granule_position,
                    end_of_stream,
                ).0,
                start.laced_all(packet@, granule_position, end_of_stream).1 == pages
                    + self@.laced_all(
                    packet@.skip(at as int),
                    granule_position,
                    end_of_stream,
                ).1,
                out@ == old(out)@ + pages_bytes(pages),
            ensures
                self@.valid(),
                self@ == start.laced_all(packet@, granule_position, end_of_stream).0,
                pages == start.laced_all(packet@, granule_position, end_of_stream).1,
                out@ == old(out)@ + pages_bytes(pages),
            decreases len - at,
        {
            let ghost before = self@;
            let ghost rest = packet@.skip(at as int);
            let ghost step = before.stepped(rest, granule_position, end_of_stream);
            proof {
                lemma_laced_with(before, rest, granule_position);
            }
            // Full 255-byte segments, then a final short one. A packet whose
            // length is a multiple of 255 ends in a segment of zero bytes.
            let left = len - at;
            let take = if left < 255 {
                left
            } else {
                255
            };
            self.segments.push(take as u8);
            let piece = slice_subrange(packet, at, at + take);
            assert(piece@ =~= rest.take(take as int));
            self.body.extend_from_slice(piece);
            assert(self.body@ =~= before.body + rest.take(take as int));
            at = at + take;
            let packet_done = take < 255;
            if packet_done {
                self.page_granule = granule_position;
            }
            assert(self@ =~= before.laced_with(rest, granule_position));
            if self.segments.len() == MAX_SEGMENTS {
                let ghost page = self@.page(end_of_stream && packet_done);
                self.emit(out, end_of_stream && packet_done);
                self.continued = !packet_done;
                proof {
                    lemma_page_bytes_single(page);
                    lemma_pages_bytes(pages, seq![page]);
                    assert(old(out)@ + pages_bytes(pages) + page_bytes(page) =~= old(out)@ + (
                    pages_bytes(pages) + page_bytes(page)));
                }
            } else {
                assert(pages + seq![] =~= pages);
            }
            assert(self@ =~= step.0);
            proof {
                let old_pages = pages;
                pages = pages + step.1;
                if packet_done {
                    assert(old_pages + step.1 =~= pages);
                } else {
                    assert(rest.skip(255) =~= packet@.skip(at as int));
                    let more = self@.laced_all(
                        rest.skip(255),
                        granule_position,
                        end_of_stream,
                    ).1;
                    assert(old_pages + (step.1 + more) =~= pages + more);
                }
            }
            if packet_done {
                break;
            }
        }
        if end_of_stream && self.segments.len() > 0 {
            let ghost page = self@.page(true);
            self.emit(out, true);
            proof {
                lemma_page_bytes_single(page);
                lemma_pages_bytes(pages, seq![page]);
                assert(old(out)@ + pages_bytes(pages) + page_bytes(page) =~= old(out)@ + (
                pages_bytes(pages) + page_bytes(page)));
            }
        } else {
            assert(pages + seq![] =~= pages);
        }
    }

    /// Emits the partially filled page, if any.
    ///
    /// In an Opus stream the ID header sits alone on the first page and the
    /// comment header finishes its final page; call this after each.
    pub fn flush(&mut self, out: &mut Vec<u8>)
        requires
            old(self)@.valid(),
        ensures
            final(self)@.valid(),
            final(self)@ == old(self)@.flushed(false).0,
            final(out)@ == old(out)@ + pages_bytes(old(self)@.flushed(false).1),
    {
        if self.segments.len() > 0 {
            proof {
                lemma_page_bytes_single(self@.page(false));
            }
            self.emit(out, false);
        } else {
            assert(out@ + pages_bytes(seq![]) =~= out@);
        }
    }

    /// Serialises the assembled page and resets the assembly buffers.
    fn emit(&mut self, out: &mut Vec<u8>, eos: bool)
        requires
            old(self)@.segments.len() <= MAX_SEGMENTS,
        ensures
            final(self)@ == old(self)@.emitted(),
            final(out)@ == old(out)@ + page_bytes(old(self)@.page(eos)),
    {
        let ghost p = self@.page(eos);
        let continued_flag: u8 = if self.continued { 1 } else { 0 };
        let first_flag: u8 = if self.first { 2 } else { 0 };
        let eos_flag: u8 = if eos { 4 } else { 0 };
        let flags: u8 = continued_flag + first_flag + eos_flag;

        let mut page: Vec<u8> = Vec::new();
        page.extend_from_slice(&CAPTURE_PATTERN);
        page.push(0);  // version
        page.push(flags);
        write_le(&mut page, self.page_granule, 8);
        write_le(&mut page, self.serial as u64, 4);
        write_le(&mut page, self.sequence as u64, 4);
        page.push(0);
        page.push(0);
        page.push(0);
        page.push(0);
        page.push(self.segments.len() as u8);
        page.extend_from_slice(self.segments.as_slice());
        page.extend_from_slice(self.body.as_slice());
        proof {
            super::bytes::lemma_le_len(self.page_granule as nat, 8);
            super::bytes::lemma_le_len(self.serial as nat, 4);
            super::bytes::lemma_le_len(self.sequence as nat, 4);
            assert(page@ =~= unstamped(p));
        }

        let checksum = crc::update(0, page.as_slice());
        let head = slice_subrange(page.as_slice(), 0, 22);
        let tail = slice_subrange(page.as_slice(), 26, page.len());
        out.extend_from_slice(head);
        write_le(out, checksum as u64, 4);
        out.extend_from_slice(tail);
        proof {
            assert(head@ =~= unstamped(p).take(22));
            assert(tail@ =~= unstamped(p).skip(26));
            assert(out@ =~= old(out)@ + page_bytes(p));
        }

        self.sequence = self.sequence.wrapping_add(1);
        self.segments.clear();
        self.body.clear();
        self.page_granule = NO_GRANULE;
        self.continued = false;
        self.first = false;
        assert(self@ =~= old(self)@.emitted());
    }
}

} // verus!
