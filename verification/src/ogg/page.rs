//! Ogg pages: their byte form, and a reader that walks the pages of a stream.

use vstd::prelude::*;
use vstd::slice::slice_subrange;

use crate::text::{append_decimal, decimal};

use super::bytes::{le_value, read_le};
use super::crc;
use super::crc::crc_of;

verus! {

/// The four-byte capture pattern `OggS` that heads every page.
pub const CAPTURE_PATTERN: [u8; 4] = [0x4F, 0x67, 0x67, 0x53];

/// Fixed page header length before the segment table.
pub const HEADER_LEN: usize = 27;

/// Maximum number of segments of a page.
pub const MAX_SEGMENTS: usize = 255;

/// The granule position that means "no packet completes on this page".
pub const NO_GRANULE: u64 = 0xFFFF_FFFF_FFFF_FFFF;

/// Why a page failed to parse.
#[derive(Debug, Clone, Copy, PartialEq, Eq, Structural)]
#[non_exhaustive]
pub enum OggError {
    /// The capture pattern `OggS` was not found.
    MissingCapturePattern,
    /// The stream-structure version is not 0.
    UnsupportedVersion(u8),
    /// Fewer bytes available than the header and segment table declare.
    Truncated,
    /// The page checksum did not match its contents.
    BadCrc,
}

impl OggError {
    /// The message shown to users.
    pub open spec fn text(self) -> Seq<char> {
        match self {
            OggError::MissingCapturePattern => "missing OggS capture pattern"@,
            OggError::UnsupportedVersion(v) => "unsupported Ogg version "@ + decimal(v as nat),
            OggError::Truncated => "page truncated"@,
            OggError::BadCrc => "page CRC mismatch"@,
        }
    }

    /// The message shown to users.
    #[must_use]
    pub fn message(&self) -> (text: String)
        ensures
            text@ == self.text(),
    {
        match self {
            OggError::MissingCapturePattern => String::from_str("missing OggS capture pattern"),
            OggError::UnsupportedVersion(v) => {
                let mut text = String::from_str("unsupported Ogg version ");
                append_decimal(&mut text, *v as u64);
                text
            },
            OggError::Truncated => String::from_str("page truncated"),
            OggError::BadCrc => String::from_str("page CRC mismatch"),
        }
    }
}

/// The contents of a page.
#[verifier::ext_equal]
pub struct PageContents {
    pub continued: bool,
    pub bos: bool,
    pub eos: bool,
    pub granule_position: u64,
    pub serial: u32,
    pub sequence: u32,
    pub segments: Seq<u8>,
    pub body: Seq<u8>,
}

/// The bytes that the first `k` segments of a segment table take.
pub open spec fn laced(segments: Seq<u8>, k: int) -> nat
    decreases k,
{
    if k <= 0 {
        0
    } else {
        laced(segments, k - 1) + segments[k - 1] as nat
    }
}

/// Whether `data` begins with the whole capture pattern.
pub open spec fn begins_with_capture(data: Seq<u8>) -> bool {
    &&& data.len() >= 4
    &&& forall|i: int| 0 <= i < 4 ==> data[i] == #[trigger] CAPTURE_PATTERN@[i]
}

/// The bytes of the page at the front of `data`, whose header and segment
/// table must be there.
pub open spec fn page_size(data: Seq<u8>) -> nat {
    HEADER_LEN as nat + data[26] as nat + laced(data.skip(HEADER_LEN as int), data[26] as int)
}

/// The bytes that the checksum of a page covers: the page with the checksum
/// field set to zero.
pub open spec fn checksummed(page: Seq<u8>) -> Seq<u8> {
    page.take(22) + seq![0u8, 0u8, 0u8, 0u8] + page.skip(26)
}

/// The fields of a whole page.
pub open spec fn page_contents(page: Seq<u8>) -> PageContents {
    let body_start = HEADER_LEN + page[26] as int;
    PageContents {
        continued: page[5] as int % 2 == 1,
        bos: (page[5] as int / 2) % 2 == 1,
        eos: (page[5] as int / 4) % 2 == 1,
        granule_position: le_value(page.subrange(6, 14)) as u64,
        serial: le_value(page.subrange(14, 18)) as u32,
        sequence: le_value(page.subrange(18, 22)) as u32,
        segments: page.subrange(HEADER_LEN as int, body_start),
        body: page.skip(body_start),
    }
}

/// The page at the front of `data` with the number of bytes that it takes, or
/// why there is none.
pub open spec fn parse_page(data: Seq<u8>) -> Result<(PageContents, nat), OggError> {
    if !begins_with_capture(data) {
        Err(OggError::MissingCapturePattern)
    } else if data.len() < HEADER_LEN {
        Err(OggError::Truncated)
    } else if data[4] != 0 {
        Err(OggError::UnsupportedVersion(data[4]))
    } else if data.len() < HEADER_LEN + data[26] || data.len() < page_size(data) {
        Err(OggError::Truncated)
    } else {
        let page = data.take(page_size(data) as int);
        if crc_of(0, checksummed(page)) != le_value(page.subrange(22, 26)) {
            Err(OggError::BadCrc)
        } else {
            Ok((page_contents(page), page_size(data)))
        }
    }
}

/// One parsed page: its header fields, segment table and body.
#[derive(Debug, Clone, PartialEq, Eq)]
pub struct Page<'a> {
    /// The first packet continues from the previous page.
    pub continued: bool,
    /// First page of the logical bitstream.
    pub bos: bool,
    /// Last page of the logical bitstream.
    pub eos: bool,
    /// Codec-defined position marker; [`NO_GRANULE`] when no packet completes
    /// on this page.
    pub granule_position: u64,
    /// Serial number that identifies the logical bitstream.
    pub serial: u32,
    /// Page counter of the logical bitstream, for loss detection.
    pub sequence: u32,
    /// Lacing values: the segment table.
    pub segments: &'a [u8],
    /// The page body: all segments concatenated.
    pub body: &'a [u8],
}

impl View for Page<'_> {
    type V = PageContents;

    open spec fn view(&self) -> PageContents {
        PageContents {
            continued: self.continued,
            bos: self.bos,
            eos: self.eos,
            granule_position: self.granule_position,
            serial: self.serial,
            sequence: self.sequence,
            segments: self.segments@,
            body: self.body@,
        }
    }
}

/// Whether `data` begins with the whole capture pattern.
fn has_capture(data: &[u8]) -> (res: bool)
    ensures
        res == begins_with_capture(data@),
{
    if data.len() < 4 {
        return false;
    }
    let mut i: usize = 0;
    while i < 4
        invariant
            i <= 4 <= data@.len(),
            forall|j: int| 0 <= j < i ==> data@[j] == #[trigger] CAPTURE_PATTERN@[j],
        decreases 4 - i,
    {
        if data[i] != CAPTURE_PATTERN[i] {
            return false;
        }
        i = i + 1;
    }
    true
}

/// The bytes that the first `n` of the lacing values in `table` stand for.
fn sum_lacing(table: &[u8], n: usize) -> (sum: usize)
    requires
        n <= table@.len(),
        n <= MAX_SEGMENTS,
    ensures
        sum == laced(table@, n as int),
        sum <= 255 * n,
{
    let mut sum: usize = 0;
    let mut k: usize = 0;
    while k < n
        invariant
            k <= n <= table@.len(),
            n <= MAX_SEGMENTS,
            sum == laced(table@, k as int),
            sum <= 255 * k,
        decreases n - k,
    {
        sum = sum + table[k] as usize;
        k = k + 1;
    }
    sum
}

impl<'a> Page<'a> {
    /// Parses one page from the start of `data` and verifies its checksum.
    /// Returns the page and the number of bytes it occupies.
    ///
    /// # Errors
    ///
    /// [`OggError::MissingCapturePattern`] if `data` does not begin with
    /// `OggS`; [`OggError::Truncated`] if the header or the declared length
    /// overruns `data`;
    /// [`OggError::BadCrc`] on a checksum mismatch;
    /// [`OggError::UnsupportedVersion`] for any version other than 0.
    pub fn parse(data: &'a [u8]) -> (res: Result<(Self, usize), OggError>)
        ensures
            match res {
                Ok((page, consumed)) => parse_page(data@) == Ok::<(PageContents, nat), OggError>(
                    (page@, consumed as nat),
                ),
                Err(e) => parse_page(data@) == Err::<(PageContents, nat), OggError>(e),
            },
    {
        let len = data.len();
        if !has_capture(data) {
            return Err(OggError::MissingCapturePattern);
        }
        if len < HEADER_LEN {
            return Err(OggError::Truncated);
        }
        if data[4] != 0 {
            return Err(OggError::UnsupportedVersion(data[4]));
        }
        let n_segments = data[26] as usize;
        let body_start = HEADER_LEN + n_segments;
        if len < body_start {
            return Err(OggError::Truncated);
        }
        let table = slice_subrange(data, HEADER_LEN, len);
        assert(table@ =~= data@.skip(HEADER_LEN as int));
        let total = body_start + sum_lacing(table, n_segments);
        if len < total {
            return Err(OggError::Truncated);
        }
        let page = slice_subrange(data, 0, total);
        assert(page@ =~= data@.take(total as int));

        // The checksum covers the whole page with its own field zeroed.
        let declared_crc = read_le(page, 22, 4);
        let head = slice_subrange(page, 0, 22);
        let tail = slice_subrange(page, 26, total);
        let zeros: [u8; 4] = [0, 0, 0, 0];
        let mut actual = crc::update(0, head);
        actual = crc::update(actual, &zeros);
        actual = crc::update(actual, tail);
        proof {
            assert(head@ =~= page@.take(22));
            assert(tail@ =~= page@.skip(26));
            assert(zeros@ =~= seq![0u8, 0u8, 0u8, 0u8]);
            crc::law_incremental(0, head@, zeros@);
            crc::law_incremental(0, head@ + zeros@, tail@);
        }
        if actual as u64 != declared_crc {
            return Err(OggError::BadCrc);
        }
        let flags = page[5];
        let granule_position = read_le(page, 6, 8);
        let serial = read_le(page, 14, 4);
        let sequence = read_le(page, 18, 4);
        proof {
            reveal_with_fuel(super::bytes::pow256, 9);
        }
        let res = Page {
            continued: flags % 2 == 1,
            bos: (flags / 2) % 2 == 1,
            eos: (flags / 4) % 2 == 1,
            granule_position,
            serial: serial as u32,
            sequence: sequence as u32,
            segments: slice_subrange(page, HEADER_LEN, body_start),
            body: slice_subrange(page, body_start, total),
        };
        assert(res@ =~= page_contents(page@));
        Ok((res, total))
    }
}

/// The first position at or behind `from` where the whole capture pattern
/// stands.
pub open spec fn next_capture(data: Seq<u8>, from: nat) -> Option<nat>
    decreases data.len() - from,
{
    if from + 4 > data.len() {
        None
    } else if begins_with_capture(data.skip(from as int)) {
        Some(from)
    } else {
        next_capture(data, from + 1)
    }
}

pub proof fn lemma_next_capture(data: Seq<u8>, from: nat)
    ensures
        next_capture(data, from) matches Some(q) ==> from <= q && q + 4 <= data.len(),
    decreases data.len() - from,
{
    if from + 4 <= data.len() && !begins_with_capture(data.skip(from as int)) {
        lemma_next_capture(data, from + 1);
    }
}

/// The next page of a stream from position `pos` on, with the position behind
/// it. Where a page is damaged, the search goes on at the next capture
/// pattern; it ends at a page that the stream does not hold whole. Without a
/// page the position is where the search ended.
pub open spec fn next_page(data: Seq<u8>, pos: nat) -> (Option<PageContents>, nat)
    decreases data.len() - pos,
{
    if pos >= data.len() {
        (None, pos)
    } else {
        match parse_page(data.skip(pos as int)) {
            Ok((page, size)) => (Some(page), pos + size),
            Err(OggError::Truncated) => (None, pos),
            Err(_) => match next_capture(data, pos + 1) {
                Some(q) => {
                    proof {
                        lemma_next_capture(data, pos + 1);
                    }
                    next_page(data, q)
                },
                None => (None, pos),
            },
        }
    }
}

proof fn lemma_page_contents(data: Seq<u8>)
    ensures
        parse_page(data) matches Ok((page, size)) ==> HEADER_LEN <= size <= data.len()
            && page.segments.len() <= MAX_SEGMENTS && page.body.len() == laced(
            page.segments,
            page.segments.len() as int,
        ),
{
    if parse_page(data) is Ok {
        let page = data.take(page_size(data) as int);
        super::writer::lemma_laced_same(
            data.skip(HEADER_LEN as int),
            page_contents(page).segments,
            data[26] as int,
        );
    }
}

/// A page that is found lies behind `pos` and within the stream, and its body
/// is as long as its segment table says.
pub proof fn lemma_next_page(data: Seq<u8>, pos: nat)
    ensures
        next_page(data, pos).0 matches Some(page) ==> pos < next_page(data, pos).1 <= data.len()
            && page.segments.len() <= MAX_SEGMENTS && page.body.len() == laced(
            page.segments,
            page.segments.len() as int,
        ),
    decreases data.len() - pos,
{
    if pos < data.len() {
        lemma_page_contents(data.skip(pos as int));
        if let Some(q) = next_capture(data, pos + 1) {
            lemma_next_capture(data, pos + 1);
            lemma_next_page(data, q);
        }
    }
}

/// Where a search found no page, another one from where it ended finds none.
pub proof fn lemma_next_page_again(data: Seq<u8>, pos: nat)
    requires
        next_page(data, pos).0 is None,
    ensures
        next_page(data, next_page(data, pos).1).0 is None,
    decreases data.len() - pos,
{
    if pos < data.len() {
        if let Some(q) = next_capture(data, pos + 1) {
            lemma_next_capture(data, pos + 1);
            if parse_page(data.skip(pos as int)) is Err && parse_page(data.skip(pos as int))->Err_0
                != OggError::Truncated {
                lemma_next_page_again(data, q);
            }
        }
    }
}

/// Iterates the pages of a physical Ogg bitstream held in memory.
///
/// On corruption the reader resynchronises: it scans forward for the next
/// `OggS` capture pattern with a valid checksum. It ends at a page that the
/// stream does not hold whole.
#[derive(Debug)]
pub struct PageReader<'a> {
    data: &'a [u8],
    pos: usize,
}

impl Clone for PageReader<'_> {
    fn clone(&self) -> (copy: Self)
        ensures
            copy == *self,
    {
        proof {
            use_type_invariant(self);
        }
        PageReader { data: self.data, pos: self.pos }
    }
}

impl<'a> PageReader<'a> {
    #[verifier::type_invariant]
    spec fn well_formed(self) -> bool {
        self.pos <= self.data@.len()
    }

    /// The stream that is read.
    pub closed spec fn stream(self) -> Seq<u8> {
        self.data@
    }

    /// The position of the next read.
    pub closed spec fn offset(self) -> nat {
        self.pos as nat
    }

    /// Creates a reader over a complete physical bitstream.
    #[must_use]
    pub fn new(data: &'a [u8]) -> (reader: Self)
        ensures
            reader.stream() == data@,
            reader.offset() == 0,
    {
        PageReader { data, pos: 0 }
    }

    /// The current byte offset into the stream.
    #[must_use]
    pub fn position(&self) -> (pos: usize)
        ensures
            pos == self.offset(),
    {
        self.pos
    }

    /// The next page, if there is one.
    pub fn next(&mut self) -> (res: Option<Page<'a>>)
        ensures
            final(self).stream() == old(self).stream(),
            final(self).offset() <= final(self).stream().len(),
            final(self).offset() == next_page(old(self).stream(), old(self).offset()).1,
            match res {
                Some(page) => next_page(old(self).stream(), old(self).offset()).0 == Some(page@),
                None => next_page(old(self).stream(), old(self).offset()).0 is None,
            },
    {
        proof {
            use_type_invariant(&*self);
        }
        let data = self.data;
        let mut pos = self.pos;
        while pos < data.len()
            invariant
                pos <= data@.len(),
                next_page(data@, old(self).pos as nat) == next_page(data@, pos as nat),
                data == self.data,
                *self == *old(self),
            decreases data@.len() - pos,
        {
            let rest = slice_subrange(data, pos, data.len());
            assert(rest@ =~= data@.skip(pos as int));
            match Page::parse(rest) {
                Ok((page, consumed)) => {
                    self.pos = pos + consumed;
                    return Some(page);
                },
                // A truncated final page: nothing more to read.
                Err(OggError::Truncated) => {
                    self.pos = pos;
                    return None;
                },
                // Resynchronise at the next capture pattern.
                Err(_) => {
                    proof {
                        lemma_next_capture(data@, (pos + 1) as nat);
                    }
                    match find_capture(data, pos + 1) {
                        Some(q) => {
                            pos = q;
                        },
                        None => {
                            self.pos = pos;
                            return None;
                        },
                    }
                },
            }
        }
        self.pos = pos;
        None
    }
}

/// Finds the first capture pattern at or behind `from`.
fn find_capture(data: &[u8], from: usize) -> (res: Option<usize>)
    requires
        from <= data@.len(),
    ensures
        match res {
            Some(q) => next_capture(data@, from as nat) == Some(q as nat),
            None => next_capture(data@, from as nat) is None,
        },
{
    let len = data.len();
    let mut at = from;
    while len - at >= 4
        invariant
            from <= at <= len,
            len == data@.len(),
            next_capture(data@, from as nat) == next_capture(data@, at as nat),
        decreases len - at,
    {
        let rest = slice_subrange(data, at, len);
        assert(rest@ =~= data@.skip(at as int));
        if has_capture(rest) {
            return Some(at);
        }
        at = at + 1;
    }
    None
}

} // verus!
