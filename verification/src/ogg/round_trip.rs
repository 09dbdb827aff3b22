//! What is written to an Ogg stream is what is read back from it.

use vstd::prelude::*;

use super::bytes::{le_bytes, lemma_le_bytes, lemma_le_len, lemma_pow256};
use super::crc::crc_of;
use super::page::{
    begins_with_capture, checksummed, laced, next_page, page_contents, page_size, parse_page,
    OggError, PageContents, HEADER_LEN, MAX_SEGMENTS, NO_GRANULE,
};
use super::reader::{packets_from, Assembly, Lacing, OggPacketContents, MAX_PACKET_LEN};
use super::writer::{
    lemma_laced_monotonic, lemma_laced_same, lemma_laced_with, page_bytes, page_flags, pages_bytes,
    unstamped, WriterState,
};

verus! {

/// Whether the body of a page is as long as its segment table says.
pub open spec fn page_valid(p: PageContents) -> bool {
    &&& p.segments.len() <= MAX_SEGMENTS
    &&& p.body.len() == laced(p.segments, p.segments.len() as int)
}

pub proof fn lemma_unstamped(p: PageContents)
    requires
        page_valid(p),
    ensures
        unstamped(p).len() == HEADER_LEN + p.segments.len() + p.body.len(),
        unstamped(p).subrange(22, 26) == seq![0u8, 0u8, 0u8, 0u8],
        page_bytes(p).len() == unstamped(p).len(),
        page_bytes(p).take(22) == unstamped(p).take(22),
        page_bytes(p).skip(26) == unstamped(p).skip(26),
        page_bytes(p).subrange(22, 26) == le_bytes(crc_of(0, unstamped(p)) as nat, 4),
{
    lemma_le_len(p.granule_position as nat, 8);
    lemma_le_len(p.serial as nat, 4);
    lemma_le_len(p.sequence as nat, 4);
    lemma_le_len(crc_of(0, unstamped(p)) as nat, 4);
    assert(unstamped(p).subrange(22, 26) =~= seq![0u8, 0u8, 0u8, 0u8]);
    assert(page_bytes(p).take(22) =~= unstamped(p).take(22));
    assert(page_bytes(p).skip(26) =~= unstamped(p).skip(26));
    assert(page_bytes(p).subrange(22, 26) =~= le_bytes(crc_of(0, unstamped(p)) as nat, 4));
}

proof fn lemma_unstamped_fields(p: PageContents)
    requires
        page_valid(p),
    ensures
        unstamped(p).len() == HEADER_LEN + p.segments.len() + p.body.len(),
        begins_with_capture(unstamped(p)),
        unstamped(p)[4] == 0,
        unstamped(p)[5] == page_flags(p),
        unstamped(p)[26] == p.segments.len(),
        unstamped(p).subrange(6, 14) == le_bytes(p.granule_position as nat, 8),
        unstamped(p).subrange(14, 18) == le_bytes(p.serial as nat, 4),
        unstamped(p).subrange(18, 22) == le_bytes(p.sequence as nat, 4),
{
    lemma_le_len(p.granule_position as nat, 8);
    lemma_le_len(p.serial as nat, 4);
    lemma_le_len(p.sequence as nat, 4);
    let plain = unstamped(p);
    assert(plain.subrange(6, 14) =~= le_bytes(p.granule_position as nat, 8));
    assert(plain.subrange(14, 18) =~= le_bytes(p.serial as nat, 4));
    assert(plain.subrange(18, 22) =~= le_bytes(p.sequence as nat, 4));
}

proof fn lemma_unstamped_tail(p: PageContents)
    requires
        page_valid(p),
    ensures
        unstamped(p).subrange(HEADER_LEN as int, HEADER_LEN + p.segments.len() as int)
            == p.segments,
        unstamped(p).skip(HEADER_LEN + p.segments.len() as int) == p.body,
{
    lemma_le_len(p.granule_position as nat, 8);
    lemma_le_len(p.serial as nat, 4);
    lemma_le_len(p.sequence as nat, 4);
    assert(unstamped(p).subrange(HEADER_LEN as int, HEADER_LEN + p.segments.len() as int)
        =~= p.segments);
    assert(unstamped(p).skip(HEADER_LEN + p.segments.len() as int) =~= p.body);
}

proof fn lemma_stamping_keeps(p: PageContents, i: int)
    requires
        page_valid(p),
        0 <= i < 22 || 26 <= i < unstamped(p).len(),
    ensures
        page_bytes(p)[i] == unstamped(p)[i],
{
    lemma_unstamped(p);
    let plain = unstamped(p);
    let bytes = page_bytes(p);
    if i < 22 {
        assert(bytes.take(22)[i] == bytes[i]);
        assert(plain.take(22)[i] == plain[i]);
    } else {
        assert(bytes.skip(26)[i - 26] == bytes[i]);
        assert(plain.skip(26)[i - 26] == plain[i]);
    }
}

proof fn lemma_page_fields(p: PageContents)
    requires
        page_valid(p),
    ensures
        page_contents(page_bytes(p)) == p,
        begins_with_capture(page_bytes(p)),
        page_bytes(p)[4] == 0,
        page_bytes(p)[26] == p.segments.len(),
        page_bytes(p).subrange(HEADER_LEN as int, HEADER_LEN + p.segments.len() as int)
            == p.segments,
{
    lemma_unstamped(p);
    lemma_unstamped_fields(p);
    lemma_unstamped_tail(p);
    let plain = unstamped(p);
    let bytes = page_bytes(p);
    let body_start = HEADER_LEN + p.segments.len() as int;
    assert forall|i: int| 0 <= i < 22 || 26 <= i < bytes.len() implies bytes[i] == plain[i] by {
        lemma_stamping_keeps(p, i);
    }
    assert(bytes.subrange(6, 14) =~= plain.subrange(6, 14));
    assert(bytes.subrange(14, 18) =~= plain.subrange(14, 18));
    assert(bytes.subrange(18, 22) =~= plain.subrange(18, 22));
    assert(bytes.subrange(HEADER_LEN as int, body_start) =~= plain.subrange(
        HEADER_LEN as int,
        body_start,
    ));
    assert(bytes.skip(body_start) =~= plain.skip(body_start));
    lemma_pow256();
    lemma_le_bytes(p.granule_position as nat, 8);
    lemma_le_bytes(p.serial as nat, 4);
    lemma_le_bytes(p.sequence as nat, 4);
    assert(page_contents(bytes) =~= p);
}

/// A page that was written is read back, whatever follows it.
pub proof fn law_page_round_trip(p: PageContents, rest: Seq<u8>)
    requires
        page_valid(p),
    ensures
        parse_page(page_bytes(p) + rest) == Ok::<(PageContents, nat), OggError>(
            (p, page_bytes(p).len()),
        ),
{
    let bytes = page_bytes(p);
    let data = bytes + rest;
    lemma_unstamped(p);
    lemma_page_fields(p);
    assert(begins_with_capture(data));
    assert forall|i: int| 0 <= i < p.segments.len() implies data.skip(HEADER_LEN as int)[i]
        == p.segments[i] by {
        assert(bytes.subrange(HEADER_LEN as int, HEADER_LEN + p.segments.len() as int)[i]
            == bytes[HEADER_LEN + i]);
    }
    lemma_laced_same(data.skip(HEADER_LEN as int), p.segments, p.segments.len() as int);
    assert(page_size(data) == bytes.len());
    assert(data.take(bytes.len() as int) =~= bytes);
    let plain = unstamped(p);
    assert(plain =~= plain.take(22) + plain.subrange(22, 26) + plain.skip(26));
    assert(checksummed(bytes) =~= plain);
    lemma_pow256();
    lemma_le_bytes(crc_of(0, plain) as nat, 4);
}

/// The state of a reader after a run of pages, and the packets that complete
/// on them.
pub open spec fn fed(state: Assembly, pages: Seq<PageContents>) -> (
    Assembly,
    Seq<OggPacketContents>,
)
    decreases pages.len(),
{
    if pages.len() == 0 {
        (state, seq![])
    } else {
        let (before, packets) = fed(state, pages.drop_last());
        let (after, more) = before.ingested(pages.last());
        (after, packets + more)
    }
}

pub proof fn lemma_fed_first(state: Assembly, pages: Seq<PageContents>)
    requires
        pages.len() > 0,
    ensures
        ({
            let (next, packets) = state.ingested(pages[0]);
            let (end, more) = fed(next, pages.drop_first());
            fed(state, pages) == (end, packets + more)
        }),
    decreases pages.len(),
{
    let (next, packets) = state.ingested(pages[0]);
    if pages.len() == 1 {
        assert(pages.drop_last() =~= seq![]);
        assert(pages.drop_first() =~= seq![]);
        assert(fed(state, pages.drop_last()) == (state, Seq::<OggPacketContents>::empty()));
        assert(fed(next, pages.drop_first()) == (next, Seq::<OggPacketContents>::empty()));
        assert(seq![] + packets =~= packets + seq![]);
    } else {
        lemma_fed_first(state, pages.drop_last());
        let tail = pages.drop_first();
        assert(pages.drop_last().drop_first() =~= tail.drop_last());
        let (mid, some) = fed(next, tail.drop_last());
        let (end, last) = mid.ingested(pages.last());
        assert((packets + some) + last =~= packets + (some + last));
    }
}

/// The packets of a logical bitstream whose pages make up the rest of the
/// stream are those that complete on its pages.
pub proof fn lemma_stream(
    prefix: Seq<u8>,
    pages: Seq<PageContents>,
    serial: u32,
    state: Assembly,
)
    requires
        forall|i: int|
            0 <= i < pages.len() ==> page_valid(#[trigger] pages[i]) && pages[i].serial == serial,
    ensures
        packets_from(prefix + pages_bytes(pages), prefix.len(), serial, state) == fed(
            state,
            pages,
        ).1,
    decreases pages.len(),
{
    let data = prefix + pages_bytes(pages);
    if pages.len() == 0 {
        assert(next_page(data, prefix.len()).0 is None);
    } else {
        let first = pages[0];
        let bytes = page_bytes(first);
        let rest = pages_bytes(pages.drop_first());
        assert(page_valid(first));
        law_page_round_trip(first, rest);
        lemma_unstamped(first);
        assert(data.skip(prefix.len() as int) =~= bytes + rest);
        assert(next_page(data, prefix.len()) == (Some(first), prefix.len() + bytes.len()));
        let (next, packets) = state.ingested(first);
        assert(prefix + bytes + rest =~= data);
        assert forall|i: int| 0 <= i < pages.drop_first().len() implies page_valid(
            #[trigger] pages.drop_first()[i],
        ) && pages.drop_first()[i].serial == serial by {
            assert(pages.drop_first()[i] == pages[i + 1]);
        }
        lemma_stream(prefix + bytes, pages.drop_first(), serial, next);
        lemma_fed_first(state, pages);
    }
}

/// One call of a writer.
pub enum Call {
    Push { packet: Seq<u8>, granule: u64, eos: bool },
    Flush,
}

/// The state of a writer and the pages that it has emitted after a run of
/// calls.
pub open spec fn written(serial: u32, calls: Seq<Call>) -> (WriterState, Seq<PageContents>)
    decreases calls.len(),
{
    if calls.len() == 0 {
        (WriterState::initial(serial), seq![])
    } else {
        let (state, pages) = written(serial, calls.drop_last());
        let (next, more) = match calls.last() {
            Call::Push { packet, granule, eos } => state.pushed(packet, granule, eos),
            Call::Flush => state.flushed(false),
        };
        (next, pages + more)
    }
}

/// A packet as it was handed to the writer.
pub struct Pushed {
    pub packet: Seq<u8>,
    pub granule: u64,
    pub eos: bool,
}

/// The packets among a run of calls, in order.
pub open spec fn pushes(calls: Seq<Call>) -> Seq<Pushed>
    decreases calls.len(),
{
    if calls.len() == 0 {
        seq![]
    } else {
        match calls.last() {
            Call::Push { packet, granule, eos } => pushes(calls.drop_last()).push(
                Pushed { packet, granule, eos },
            ),
            Call::Flush => pushes(calls.drop_last()),
        }
    }
}

/// Whether a packet was read back as it was written: the same bytes; its own
/// granule position if it is the last to complete on its page, and none
/// otherwise; and the end of the stream where it was announced.
pub open spec fn read_back(read: OggPacketContents, sent: Pushed) -> bool {
    &&& read.data == sent.packet
    &&& read.granule_position == if read.completes_page {
        sent.granule
    } else {
        NO_GRANULE
    }
    &&& sent.eos ==> read.eos
}

proof fn lemma_lacing_prefix(open: Lacing, p: PageContents, q: PageContents, k: int)
    requires
        0 <= k <= p.segments.len(),
        p.body.len() == laced(p.segments, p.segments.len() as int),
        p.segments.is_prefix_of(q.segments),
        p.body.is_prefix_of(q.body),
    ensures
        open.laced_all(q, k) == open.laced_all(p, k),
    decreases k,
{
    if k > 0 {
        lemma_lacing_prefix(open, p, q, k - 1);
        lemma_laced_same(p.segments, q.segments, k - 1);
        lemma_laced_monotonic(p.segments, k, p.segments.len() as int);
        let at = laced(p.segments, k - 1) as int;
        let len = p.segments[k - 1] as int;
        assert(q.segments[k - 1] == p.segments[k - 1]);
        assert(q.body.subrange(at, at + len) =~= p.body.subrange(at, at + len));
    }
}

/// The lacing state of a reader that has read the emitted pages and the one
/// that is being assembled.
spec fn pending(st: WriterState, pages: Seq<PageContents>) -> Lacing {
    let page = st.page(false);
    fed(Assembly::initial(), pages).0.opened(page).laced_all(page, st.segments.len() as int)
}

/// The packets that complete on the emitted pages.
spec fn surfaced(pages: Seq<PageContents>) -> Seq<OggPacketContents> {
    fed(Assembly::initial(), pages).1
}

/// Whether the completed packets of a page lie in order, and none but short
/// segments complete them.
spec fn done_in_order(segments: Seq<u8>, done: Seq<(Seq<u8>, int)>) -> bool {
    &&& forall|j: int|
        0 <= j < done.len() ==> 0 <= (#[trigger] done[j]).1 < segments.len()
            && segments[done[j].1] < 255
    &&& forall|i: int, j: int|
        0 <= i < j < done.len() ==> (#[trigger] done[i]).1 < (#[trigger] done[j]).1
    &&& done.len() > 0 ==> forall|k: int|
        done.last().1 < k < segments.len() ==> segments[k] == 255
}

/// Whether a reader of the pages, the one being assembled included, has the
/// packets `sent` and is in the middle of one that begins with `current`.
spec fn tracks(
    st: WriterState,
    pages: Seq<PageContents>,
    sent: Seq<Pushed>,
    current: Seq<u8>,
    mid: bool,
    ending: bool,
) -> bool {
    let a = fed(Assembly::initial(), pages).0;
    let out = surfaced(pages);
    let end = pending(st, pages);
    &&& page_valid(st.page(false))
    &&& forall|i: int|
        0 <= i < pages.len() ==> page_valid(#[trigger] pages[i]) && pages[i].serial == st.serial
    &&& !a.poisoned
    &&& a.have_partial == st.continued
    &&& a.consecutive(st.page(false))
    &&& out.len() + end.done.len() == sent.len()
    &&& forall|i: int| 0 <= i < out.len() ==> read_back(#[trigger] out[i], sent[i])
    &&& forall|j: int|
        0 <= j < end.done.len() ==> (#[trigger] end.done[j]).0 == sent[out.len() + j].packet
    &&& forall|j: int|
        0 <= j < end.done.len() ==> (#[trigger] sent[out.len() + j]).eos ==> ending
    &&& end.done.len() > 0 ==> st.granule == sent.last().granule
    &&& done_in_order(st.segments, end.done)
    &&& !end.poisoned
    &&& end.have_partial == mid
    &&& end.partial == current
}

proof fn lemma_segment(
    st: WriterState,
    pages: Seq<PageContents>,
    sent: Seq<Pushed>,
    current: Seq<u8>,
    mid: bool,
    rest: Seq<u8>,
    granule: u64,
    eos: bool,
)
    requires
        st.valid(),
        tracks(st, pages, sent, current, mid, false),
        current.len() + rest.len() <= MAX_PACKET_LEN,
    ensures
        rest.len() < 255 ==> tracks(
            st.laced_with(rest, granule),
            pages,
            sent.push(Pushed { packet: current + rest, granule, eos }),
            seq![],
            false,
            eos,
        ),
        rest.len() >= 255 ==> tracks(
            st.laced_with(rest, granule),
            pages,
            sent,
            current + rest.take(255),
            true,
            false,
        ),
{
    let next = st.laced_with(rest, granule);
    let p = st.page(false);
    let q = next.page(false);
    let n = st.segments.len() as int;
    let a = fed(Assembly::initial(), pages).0;
    let open = a.opened(p);
    let take = WriterState::piece(rest);
    assert(a.opened(q) == open);
    assert(p.segments.is_prefix_of(q.segments));
    assert(p.body.is_prefix_of(q.body));
    lemma_lacing_prefix(open, p, q, n);
    lemma_laced_same(p.segments, q.segments, n);
    lemma_laced_with(st, rest, granule);
    let before = pending(st, pages);
    let after = pending(next, pages);
    assert(after == before.laced(q, n));
    assert(q.segments[n] == take);
    assert(q.body.subrange(st.body.len() as int, st.body.len() + take) =~= rest.take(take));
    if rest.len() < 255 {
        assert(rest.take(take) =~= rest);
        assert(after.done == before.done.push((current + rest, n)));
        let out = surfaced(pages);
        let all = sent.push(Pushed { packet: current + rest, granule, eos });
        assert forall|j: int| 0 <= j < after.done.len() implies (#[trigger] after.done[j]).0
            == all[out.len() + j].packet by {
            if j < before.done.len() {
                assert(after.done[j] == before.done[j]);
            }
        }
        assert forall|j: int|
            0 <= j < after.done.len() && (#[trigger] all[out.len() + j]).eos implies eos by {
            if j < before.done.len() {
                assert(all[out.len() + j] == sent[out.len() + j]);
            }
        }
        assert forall|i: int| 0 <= i < out.len() implies read_back(#[trigger] out[i], all[i]) by {
            assert(all[i] == sent[i]);
        }
        assert(done_in_order(next.segments, after.done)) by {
            assert forall|j: int| 0 <= j < after.done.len() implies 0 <= (
            #[trigger] after.done[j]).1 < next.segments.len() && next.segments[after.done[j].1]
                < 255 by {
                if j < before.done.len() {
                    assert(after.done[j] == before.done[j]);
                }
            }
            assert forall|i: int, j: int| 0 <= i < j < after.done.len() implies (
            #[trigger] after.done[i]).1 < (#[trigger] after.done[j]).1 by {
                assert(after.done[i] == before.done[i]);
                if j < before.done.len() {
                    assert(after.done[j] == before.done[j]);
                }
            }
        }
    } else {
        assert(after.done == before.done);
    }
}

proof fn lemma_emit(
    st: WriterState,
    pages: Seq<PageContents>,
    sent: Seq<Pushed>,
    current: Seq<u8>,
    mid: bool,
    ending: bool,
    eos: bool,
)
    requires
        tracks(st, pages, sent, current, mid, ending),
        ending ==> eos,
    ensures
        tracks(
            (WriterState { continued: mid, ..st.emitted() }),
            pages.push(st.page(eos)),
            sent,
            current,
            mid,
            false,
        ),
{
    let next = WriterState { continued: mid, ..st.emitted() };
    let p = st.page(eos);
    let q = st.page(false);
    let all = pages.push(p);
    let n = st.segments.len() as int;
    let a = fed(Assembly::initial(), pages).0;
    let out = surfaced(pages);
    let open = a.opened(q);
    let end = pending(st, pages);
    assert(a.opened(p) == open);
    lemma_lacing_prefix(open, q, p, n);
    assert(all.drop_last() =~= pages);
    assert(all.last() == p);
    let b = fed(Assembly::initial(), all).0;
    let more = end.packets(p);
    assert(b.have_partial == mid && b.partial == current && !b.poisoned);
    assert(b.last_sequence == Some(st.sequence));
    assert(surfaced(all) == out + more);
    assert forall|i: int| 0 <= i < surfaced(all).len() implies read_back(
        #[trigger] surfaced(all)[i],
        sent[i],
    ) by {
        if i < out.len() {
            assert(surfaced(all)[i] == out[i]);
        } else {
            let j = i - out.len();
            assert(surfaced(all)[i] == more[j]);
            let k = end.done[j].1;
            assert(sent[out.len() + j] == sent[i]);
            if j == end.done.len() - 1 {
                assert(super::reader::last_completing(p.segments, k));
            } else {
                let m = end.done[j + 1].1;
                assert(p.segments[m] < 255);
                assert(!super::reader::last_completing(p.segments, k));
            }
        }
    }
    assert(pending(next, all) == b.opened(next.page(false)));
    assert forall|i: int| 0 <= i < all.len() implies page_valid(#[trigger] all[i])
        && all[i].serial == next.serial by {
        if i < pages.len() {
            assert(all[i] == pages[i]);
        }
    }
}

proof fn lemma_packet(
    st: WriterState,
    pages: Seq<PageContents>,
    sent: Seq<Pushed>,
    current: Seq<u8>,
    mid: bool,
    rest: Seq<u8>,
    granule: u64,
    eos: bool,
)
    requires
        st.valid(),
        tracks(st, pages, sent, current, mid, false),
        current.len() + rest.len() <= MAX_PACKET_LEN,
    ensures
        st.laced_all(rest, granule, eos).0.valid(),
        tracks(
            st.laced_all(rest, granule, eos).0,
            pages + st.laced_all(rest, granule, eos).1,
            sent.push(Pushed { packet: current + rest, granule, eos }),
            seq![],
            false,
            eos,
        ),
    decreases rest.len(),
{
    let next = st.laced_with(rest, granule);
    let (stepped, some) = st.stepped(rest, granule, eos);
    lemma_segment(st, pages, sent, current, mid, rest, granule, eos);
    let done = rest.len() < 255;
    let (now_sent, now_current): (Seq<Pushed>, Seq<u8>) = if done {
        (sent.push(Pushed { packet: current + rest, granule, eos }), seq![])
    } else {
        (sent, current + rest.take(255))
    };
    if next.segments.len() == MAX_SEGMENTS {
        lemma_emit(next, pages, now_sent, now_current, !done, done && eos, eos && done);
        assert(pages + some =~= pages.push(next.page(eos && done)));
    } else {
        assert(pages + some =~= pages);
        lemma_laced_with(st, rest, granule);
    }
    assert(stepped.valid());
    if !done {
        lemma_packet(
            stepped,
            pages + some,
            sent,
            now_current,
            true,
            rest.skip(255),
            granule,
            eos,
        );
        let more = stepped.laced_all(rest.skip(255), granule, eos).1;
        assert(pages + some + more =~= pages + (some + more));
        assert(now_current + rest.skip(255) =~= current + rest);
    }
}

proof fn lemma_written(serial: u32, calls: Seq<Call>)
    requires
        forall|i: int|
            0 <= i < calls.len() ==> ((#[trigger] calls[i]) matches Call::Push { packet, .. }
                ==> packet.len() <= MAX_PACKET_LEN),
    ensures
        written(serial, calls).0.valid(),
        written(serial, calls).0.serial == serial,
        tracks(
            written(serial, calls).0,
            written(serial, calls).1,
            pushes(calls),
            seq![],
            false,
            false,
        ),
    decreases calls.len(),
{
    if calls.len() > 0 {
        let before = calls.drop_last();
        assert forall|i: int| 0 <= i < before.len() implies ((
        #[trigger] before[i]) matches Call::Push { packet, .. } ==> packet.len()
            <= MAX_PACKET_LEN) by {
            assert(before[i] == calls[i]);
        }
        lemma_written(serial, before);
        let (st, pages) = written(serial, before);
        let sent = pushes(before);
        match calls.last() {
            Call::Push { packet, granule, eos } => {
                assert(calls[calls.len() - 1] == calls.last());
                lemma_serial(st, packet, granule, eos);
                lemma_packet(st, pages, sent, seq![], false, packet, granule, eos);
                assert(seq![] + packet =~= packet);
                let (next, more) = st.laced_all(packet, granule, eos);
                if eos {
                    lemma_flush(next, pages + more, pushes(calls), true, true);
                    assert(pages + more + next.flushed(true).1 =~= pages + (more
                        + next.flushed(true).1));
                }
            },
            Call::Flush => {
                lemma_flush(st, pages, sent, false, false);
            },
        }
    } else {
        assert(page_valid(WriterState::initial(serial).page(false)));
    }
}

proof fn lemma_serial(st: WriterState, rest: Seq<u8>, granule: u64, eos: bool)
    ensures
        st.laced_all(rest, granule, eos).0.serial == st.serial,
    decreases rest.len(),
{
    if rest.len() >= 255 {
        lemma_serial(st.stepped(rest, granule, eos).0, rest.skip(255), granule, eos);
    }
}

proof fn lemma_flush(
    st: WriterState,
    pages: Seq<PageContents>,
    sent: Seq<Pushed>,
    ending: bool,
    eos: bool,
)
    requires
        st.valid(),
        tracks(st, pages, sent, seq![], false, ending),
        ending ==> eos,
    ensures
        st.flushed(eos).0.valid(),
        tracks(st.flushed(eos).0, pages + st.flushed(eos).1, sent, seq![], false, false),
{
    if st.segments.len() == 0 {
        assert(pages + st.flushed(eos).1 =~= pages);
    } else {
        lemma_emit(st, pages, sent, seq![], false, ending, eos);
        assert(WriterState { continued: false, ..st.emitted() } =~= st.emitted());
        assert(pages + st.flushed(eos).1 =~= pages.push(st.page(eos)));
    }
}

/// The packets that are written to a stream are the packets that are read
/// back from it, in order and complete, once the last page was flushed. The
/// one exception is a packet beyond the reader's cap.
pub proof fn law_packets_round_trip(serial: u32, calls: Seq<Call>)
    requires
        forall|i: int|
            0 <= i < calls.len() ==> ((#[trigger] calls[i]) matches Call::Push { packet, .. }
                ==> packet.len() <= MAX_PACKET_LEN),
        written(serial, calls).0.segments.len() == 0,
    ensures
        ({
            let stream = pages_bytes(written(serial, calls).1);
            let read = packets_from(stream, 0, serial, Assembly::initial());
            let sent = pushes(calls);
            &&& read.len() == sent.len()
            &&& forall|i: int| 0 <= i < sent.len() ==> read_back(#[trigger] read[i], sent[i])
        }),
{
    let (st, pages) = written(serial, calls);
    lemma_written(serial, calls);
    lemma_stream(seq![], pages, serial, Assembly::initial());
    assert(seq![] + pages_bytes(pages) =~= pages_bytes(pages));
    assert(pending(st, pages).done.len() == 0);
}

} // verus!
