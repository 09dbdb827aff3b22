//! How pages guard what they carry, how logical bitstreams share a physical one,
//! and how a writer numbers and flags its pages.

use vstd::prelude::*;

use super::bytes::lemma_le_same;
use super::crc::law_one_byte_counts;
use super::page::{
    begins_with_capture, checksummed, laced, lemma_next_page, next_page, page_size, parse_page,
    PageContents, CAPTURE_PATTERN, HEADER_LEN, MAX_SEGMENTS, NO_GRANULE,
};
use super::reader::{packets_from, Assembly};
use super::round_trip::{
    fed, law_page_round_trip, lemma_fed_first, lemma_unstamped, page_valid, written, Call,
};
use super::writer::{
    lemma_laced_monotonic, lemma_laced_same, lemma_laced_with, page_bytes, pages_bytes, WriterState,
};

verus! {

/// Whether byte `i` of a page says nothing about its length: it is neither the
/// number of segments nor one of the lacing values.
pub open spec fn keeps_length(page: Seq<u8>, i: int) -> bool {
    i < 26 || i >= HEADER_LEN + page[26]
}

/// A lacing value that is changed moves the sum by as much.
proof fn lemma_laced_moved(table: Seq<u8>, j: int, b: u8, k: int)
    requires
        0 <= j < k <= table.len(),
    ensures
        laced(table.update(j, b), k) == laced(table, k) - table[j] + b,
    decreases k,
{
    if j < k - 1 {
        lemma_laced_moved(table, j, b, k - 1);
    } else {
        lemma_laced_same(table, table.update(j, b), j);
    }
}

/// A page whose length is changed by one byte is truncated or claims to be
/// shorter.
proof fn lemma_length_moves(page: Seq<u8>, i: int, b: u8)
    requires
        parse_page(page) is Ok,
        page_size(page) == page.len(),
        0 <= i < page.len(),
        !keeps_length(page, i),
    ensures
        b > page[i] ==> page_size(page.update(i, b)) > page.len(),
        b < page[i] ==> page_size(page.update(i, b)) < page.len(),
{
    let changed = page.update(i, b);
    let table = page.skip(HEADER_LEN as int);
    let other = changed.skip(HEADER_LEN as int);
    if i == 26 {
        assert(other =~= table);
        if b > page[26] {
            lemma_laced_monotonic(table, page[26] as int, b as int);
        } else {
            lemma_laced_monotonic(table, b as int, page[26] as int);
        }
    } else {
        assert(other =~= table.update(i - HEADER_LEN, b));
        lemma_laced_moved(table, i - HEADER_LEN, b, page[26] as int);
    }
}

/// A page in which one byte was changed is not taken for a page, unless the
/// change makes it claim to be shorter, by a smaller number of segments or a
/// smaller lacing value: the checksum then covers other bytes.
pub proof fn law_changed_byte_is_noticed(page: Seq<u8>, i: int, b: u8)
    requires
        parse_page(page) is Ok,
        page_size(page) == page.len(),
        0 <= i < page.len(),
        b != page[i],
    ensures
        keeps_length(page, i) || b > page[i] ==> parse_page(page.update(i, b)) is Err,
        parse_page(page.update(i, b)) is Ok ==> page_size(page.update(i, b)) < page.len(),
{
    let changed = page.update(i, b);
    let table = page.skip(HEADER_LEN as int);
    let other = changed.skip(HEADER_LEN as int);
    if !keeps_length(page, i) {
        lemma_length_moves(page, i, b);
    } else if i < 4 {
        assert(page[i] == CAPTURE_PATTERN@[i]);
        assert(changed[i] != CAPTURE_PATTERN@[i]);
        assert(!begins_with_capture(changed));
    } else if i > 4 {
        assert forall|j: int| 0 <= j < page[26] implies table[j] == other[j] by {
            assert(table[j] == page[HEADER_LEN + j]);
            assert(other[j] == changed[HEADER_LEN + j]);
        }
        lemma_laced_same(table, other, page[26] as int);
        assert(page_size(changed) == page.len());
        assert(page.take(page.len() as int) =~= page);
        assert(changed.take(page.len() as int) =~= changed);
        let sum = checksummed(page);
        if 22 <= i < 26 {
            assert(checksummed(changed) =~= sum);
            assert(page.subrange(22, 26)[i - 22] != changed.subrange(22, 26)[i - 22]);
            lemma_le_same(page.subrange(22, 26), changed.subrange(22, 26));
        } else {
            assert(checksummed(changed) =~= sum.update(i, b));
            assert(sum[i] == page[i]);
            law_one_byte_counts(0, sum, i, b);
            assert(changed.subrange(22, 26) =~= page.subrange(22, 26));
        }
    }
}

/// The pages of a logical bitstream from position `pos` of a stream on.
pub open spec fn pages_of(data: Seq<u8>, pos: nat, serial: u32) -> Seq<PageContents>
    decreases data.len() - pos,
{
    match next_page(data, pos) {
        (None, _) => seq![],
        (Some(page), next) => {
            proof {
                lemma_next_page(data, pos);
            }
            let rest = pages_of(data, next, serial);
            if page.serial == serial {
                seq![page] + rest
            } else {
                rest
            }
        },
    }
}

/// The packets of a logical bitstream are those that complete on its own pages;
/// the pages of others do not matter.
pub proof fn law_other_pages_do_not_matter(data: Seq<u8>, pos: nat, serial: u32, state: Assembly)
    ensures
        packets_from(data, pos, serial, state) == fed(state, pages_of(data, pos, serial)).1,
    decreases data.len() - pos,
{
    match next_page(data, pos) {
        (None, _) => {},
        (Some(page), next) => {
            lemma_next_page(data, pos);
            if page.serial == serial {
                let rest = pages_of(data, next, serial);
                let all = seq![page] + rest;
                law_other_pages_do_not_matter(data, next, serial, state.ingested(page).0);
                lemma_fed_first(state, all);
                assert(all.drop_first() =~= rest);
                assert(all[0] == page);
            } else {
                law_other_pages_do_not_matter(data, next, serial, state);
            }
        },
    }
}

/// The pages with that serial number, in order.
pub open spec fn own_pages(pages: Seq<PageContents>, serial: u32) -> Seq<PageContents>
    decreases pages.len(),
{
    if pages.len() == 0 {
        seq![]
    } else {
        let rest = own_pages(pages.drop_first(), serial);
        if pages[0].serial == serial {
            seq![pages[0]] + rest
        } else {
            rest
        }
    }
}

proof fn lemma_pages_of(prefix: Seq<u8>, pages: Seq<PageContents>, serial: u32)
    requires
        forall|i: int| 0 <= i < pages.len() ==> page_valid(#[trigger] pages[i]),
    ensures
        pages_of(prefix + pages_bytes(pages), prefix.len(), serial) == own_pages(pages, serial),
    decreases pages.len(),
{
    let data = prefix + pages_bytes(pages);
    if pages.len() == 0 {
        assert(next_page(data, prefix.len()).0 is None);
    } else {
        let first = pages[0];
        let bytes = page_bytes(first);
        let rest = pages_bytes(pages.drop_first());
        assert(page_valid(first));
        law_page_round_trip(first, rest);
        lemma_unstamped(first);
        assert(data.skip(prefix.len() as int) =~= bytes + rest);
        assert(next_page(data, prefix.len()) == (Some(first), prefix.len() + bytes.len()));
        assert(prefix + bytes + rest =~= data);
        assert forall|i: int| 0 <= i < pages.drop_first().len() implies page_valid(
            #[trigger] pages.drop_first()[i],
        ) by {
            assert(pages.drop_first()[i] == pages[i + 1]);
        }
        lemma_pages_of(prefix + bytes, pages.drop_first(), serial);
    }
}

/// Logical bitstreams whose pages are interleaved do not interfere: each is read
/// as if its own pages stood alone.
pub proof fn law_streams_do_not_interfere(pages: Seq<PageContents>, serial: u32)
    requires
        forall|i: int| 0 <= i < pages.len() ==> page_valid(#[trigger] pages[i]),
    ensures
        packets_from(pages_bytes(pages), 0, serial, Assembly::initial()) == packets_from(
            pages_bytes(own_pages(pages, serial)),
            0,
            serial,
            Assembly::initial(),
        ),
{
    let own = own_pages(pages, serial);
    lemma_own_pages(pages, serial);
    lemma_pages_of(seq![], pages, serial);
    lemma_pages_of(seq![], own, serial);
    assert(seq![] + pages_bytes(pages) =~= pages_bytes(pages));
    assert(seq![] + pages_bytes(own) =~= pages_bytes(own));
    law_other_pages_do_not_matter(pages_bytes(pages), 0, serial, Assembly::initial());
    law_other_pages_do_not_matter(pages_bytes(own), 0, serial, Assembly::initial());
}

proof fn lemma_own_pages(pages: Seq<PageContents>, serial: u32)
    requires
        forall|i: int| 0 <= i < pages.len() ==> page_valid(#[trigger] pages[i]),
    ensures
        forall|i: int|
            0 <= i < own_pages(pages, serial).len() ==> page_valid(
                #[trigger] own_pages(pages, serial)[i],
            ),
        own_pages(own_pages(pages, serial), serial) == own_pages(pages, serial),
    decreases pages.len(),
{
    if pages.len() > 0 {
        let rest = pages.drop_first();
        assert forall|i: int| 0 <= i < rest.len() implies page_valid(#[trigger] rest[i]) by {
            assert(rest[i] == pages[i + 1]);
        }
        lemma_own_pages(rest, serial);
        if pages[0].serial == serial {
            let own = own_pages(pages, serial);
            assert(own.drop_first() =~= own_pages(rest, serial));
            assert forall|i: int| 0 <= i < own.len() implies page_valid(#[trigger] own[i]) by {
                if i > 0 {
                    assert(own[i] == own_pages(rest, serial)[i - 1]);
                } else {
                    assert(own[0] == pages[0]);
                }
            }
        }
    }
}

/// Whether a page ends in the middle of a packet.
pub open spec fn ends_open(page: PageContents) -> bool {
    page.segments.last() == 255
}

/// Whether no packet completes among these segments.
pub open spec fn none_completes(segments: Seq<u8>) -> bool {
    forall|j: int| 0 <= j < segments.len() ==> segments[j] == 255
}

/// Whether page `i` of a stream is numbered and flagged as it should be: it
/// counts the pages before it, only the first begins the stream, it is
/// continued where the page before ends in the middle of a packet, and a page
/// that ends the stream ends with a packet. A page on which no packet completes
/// has no granule position.
pub open spec fn page_in_order(serial: u32, pages: Seq<PageContents>, i: int) -> bool {
    &&& pages[i].serial == serial
    &&& pages[i].sequence == i % 0x1_0000_0000
    &&& pages[i].bos == (i == 0)
    &&& pages[i].continued == (i > 0 && ends_open(pages[i - 1]))
    &&& pages[i].eos ==> !ends_open(pages[i])
    &&& none_completes(pages[i].segments) ==> pages[i].granule_position == NO_GRANULE
    &&& 1 <= pages[i].segments.len() <= MAX_SEGMENTS
    &&& page_valid(pages[i])
}

/// Whether a writer is ready to number and flag its next page.
spec fn in_order(serial: u32, st: WriterState, pages: Seq<PageContents>) -> bool {
    &&& st.valid()
    &&& st.serial == serial
    &&& st.sequence == pages.len() % 0x1_0000_0000
    &&& st.first == (pages.len() == 0)
    &&& st.continued == (pages.len() > 0 && ends_open(pages.last()))
    &&& none_completes(st.segments) ==> st.granule == NO_GRANULE
    &&& forall|i: int| 0 <= i < pages.len() ==> #[trigger] page_in_order(serial, pages, i)
}

/// Whether a writer is between packets.
spec fn settled(st: WriterState) -> bool {
    st.segments.len() > 0 ==> st.segments.last() < 255
}

/// A page that is emitted comes in order.
proof fn lemma_emitted(
    serial: u32,
    before: WriterState,
    st: WriterState,
    pages: Seq<PageContents>,
    eos: bool,
)
    requires
        in_order(serial, before, pages),
        st == (WriterState {
            segments: st.segments,
            body: st.body,
            granule: st.granule,
            ..before
        }),
        1 <= st.segments.len() <= MAX_SEGMENTS,
        st.body.len() == laced(st.segments, st.segments.len() as int),
        none_completes(st.segments) ==> st.granule == NO_GRANULE,
        eos ==> st.segments.last() < 255,
    ensures
        in_order(
            serial,
            WriterState { continued: st.segments.last() == 255, ..st.emitted() },
            pages.push(st.page(eos)),
        ),
{
    let all = pages.push(st.page(eos));
    let n = pages.len() as int;
    assert(page_in_order(serial, all, n)) by {
        if n > 0 {
            assert(all[n - 1] == pages.last());
        }
    }
    assert forall|i: int| 0 <= i < all.len() implies #[trigger] page_in_order(serial, all, i) by {
        if i < n {
            assert(page_in_order(serial, pages, i));
            assert(all[i] == pages[i]);
            if i > 0 {
                assert(all[i - 1] == pages[i - 1]);
            }
        }
    }
    assert((n + 1) % 0x1_0000_0000 == (n % 0x1_0000_0000 + 1) % 0x1_0000_0000) by {
        vstd::arithmetic::div_mod::lemma_add_mod_noop(n, 1, 0x1_0000_0000);
    }
}

/// A packet keeps the pages in order.
proof fn lemma_laced_in_order(
    serial: u32,
    st: WriterState,
    pages: Seq<PageContents>,
    rest: Seq<u8>,
    granule: u64,
    eos: bool,
)
    requires
        in_order(serial, st, pages),
    ensures
        ({
            let (end, more) = st.laced_all(rest, granule, eos);
            in_order(serial, end, pages + more) && settled(end)
        }),
    decreases rest.len(),
{
    let next = st.laced_with(rest, granule);
    let (stepped, some) = st.stepped(rest, granule, eos);
    lemma_laced_with(st, rest, granule);
    let n = st.segments.len() as int;
    assert(next.segments[n] == WriterState::piece(rest));
    assert(next.segments.last() == WriterState::piece(rest));
    assert(none_completes(next.segments) ==> next.granule == NO_GRANULE) by {
        if none_completes(next.segments) {
            assert forall|j: int| 0 <= j < st.segments.len() implies st.segments[j] == 255 by {
                assert(next.segments[j] == st.segments[j]);
            }
        }
    }
    if next.segments.len() == MAX_SEGMENTS {
        lemma_emitted(serial, st, next, pages, eos && rest.len() < 255);
        assert(pages + some =~= pages.push(next.page(eos && rest.len() < 255)));
    } else {
        assert(pages + some =~= pages);
    }
    if rest.len() >= 255 {
        lemma_laced_in_order(serial, stepped, pages + some, rest.skip(255), granule, eos);
        let more = stepped.laced_all(rest.skip(255), granule, eos).1;
        assert(pages + some + more =~= pages + (some + more));
    }
}

/// A flush between packets keeps the pages in order.
proof fn lemma_flushed_in_order(
    serial: u32,
    st: WriterState,
    pages: Seq<PageContents>,
    eos: bool,
)
    requires
        in_order(serial, st, pages),
        settled(st),
    ensures
        in_order(serial, st.flushed(eos).0, pages + st.flushed(eos).1),
        settled(st.flushed(eos).0),
{
    if st.segments.len() > 0 {
        lemma_emitted(serial, st, st, pages, eos);
        assert(WriterState { continued: false, ..st.emitted() } =~= st.emitted());
        assert(pages + st.flushed(eos).1 =~= pages.push(st.page(eos)));
    } else {
        assert(pages + st.flushed(eos).1 =~= pages);
    }
}

proof fn lemma_written_in_order(serial: u32, calls: Seq<Call>)
    ensures
        in_order(serial, written(serial, calls).0, written(serial, calls).1),
        settled(written(serial, calls).0),
    decreases calls.len(),
{
    if calls.len() > 0 {
        lemma_written_in_order(serial, calls.drop_last());
        let (st, pages) = written(serial, calls.drop_last());
        match calls.last() {
            Call::Push { packet, granule, eos } => {
                lemma_laced_in_order(serial, st, pages, packet, granule, eos);
                let (next, more) = st.laced_all(packet, granule, eos);
                if eos {
                    lemma_flushed_in_order(serial, next, pages + more, true);
                    assert(pages + more + next.flushed(true).1 =~= pages + (more + next.flushed(
                        true,
                    ).1));
                }
            },
            Call::Flush => {
                lemma_flushed_in_order(serial, st, pages, false);
            },
        }
    }
}

/// A writer numbers its pages from zero, flags the first as the beginning of the
/// stream, flags as continued those that begin in the middle of a packet, and
/// never ends the stream in the middle of one.
pub proof fn law_pages_are_in_order(serial: u32, calls: Seq<Call>, i: int)
    requires
        0 <= i < written(serial, calls).1.len(),
    ensures
        page_in_order(serial, written(serial, calls).1, i),
{
    lemma_written_in_order(serial, calls);
}

} // verus!
