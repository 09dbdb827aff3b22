//! What a page says, which pages a search finds, and what becomes of the bytes
//! of a page.

use vstd::prelude::*;

use crate::framing::joined;

use super::bytes::le_value;
use super::page::{
    laced, lemma_next_capture, next_capture, next_page, page_contents, parse_page, PageContents,
    NO_GRANULE,
};
use super::reader::{Assembly, Lacing, MAX_PACKET_LEN};
use super::round_trip::page_valid;
use super::writer::{lemma_laced_monotonic, page_flags, WriterState};

verus! {

/// The word that four bytes make, with the least significant first.
pub open spec fn word(a: u8, b: u8, c: u8, d: u8) -> int {
    a + 0x100 * b + 0x1_0000 * c + 0x100_0000 * d
}

proof fn lemma_word(s: Seq<u8>)
    requires
        s.len() == 4,
    ensures
        le_value(s) == word(s[0], s[1], s[2], s[3]),
{
    let t = s.drop_first();
    let u = t.drop_first();
    let v = u.drop_first();
    assert(v.drop_first().len() == 0);
    assert(t[0] == s[1] && u[0] == s[2] && v[0] == s[3]);
    assert(le_value(v.drop_first()) == 0);
    assert(le_value(v) == s[3]);
    assert(le_value(u) == s[2] + 256 * le_value(v));
    assert(le_value(t) == s[1] + 256 * le_value(u));
}

/// Where the fields of a page stand: three flags in the sixth byte, the serial
/// number and the sequence number as little-endian words, and behind the number
/// of segments their lengths and the body.
pub proof fn law_page_fields(page: Seq<u8>, i: int)
    requires
        page.len() >= 27 + page[26],
    ensures
        ({
            let p = page_contents(page);
            &&& p.continued <==> page[5] & 1 != 0
            &&& p.bos <==> page[5] & 2 != 0
            &&& p.eos <==> page[5] & 4 != 0
            &&& p.serial == word(page[14], page[15], page[16], page[17])
            &&& p.sequence == word(page[18], page[19], page[20], page[21])
            &&& p.segments.len() == page[26]
            &&& 0 <= i < page[26] ==> p.segments[i] == page[27 + i]
            &&& 0 <= i < page.len() - 27 - page[26] ==> p.body[i] == page[27 + page[26] + i]
            &&& p.body.len() == page.len() - 27 - page[26]
        }),
{
    let b = page[5];
    assert(b & 1 != 0 <==> b % 2 == 1) by (bit_vector);
    assert(b & 2 != 0 <==> (b / 2) % 2 == 1) by (bit_vector);
    assert(b & 4 != 0 <==> (b / 4) % 2 == 1) by (bit_vector);
    lemma_word(page.subrange(14, 18));
    lemma_word(page.subrange(18, 22));
}

/// The flags of a page that is written stand in the bits of one byte.
pub proof fn law_flag_bits(p: PageContents)
    ensures
        page_flags(p) < 8,
        page_flags(p) & 1 != 0 <==> p.continued,
        page_flags(p) & 2 != 0 <==> p.bos,
        page_flags(p) & 4 != 0 <==> p.eos,
{
    let b = page_flags(p);
    assert(b & 1 != 0 <==> b % 2 == 1) by (bit_vector);
    assert(b & 2 != 0 <==> (b / 2) % 2 == 1) by (bit_vector);
    assert(b & 4 != 0 <==> (b / 4) % 2 == 1) by (bit_vector);
}

/// The page that starts at a position of a stream, with its size.
#[verifier::opaque]
pub open spec fn page_at(data: Seq<u8>, q: int) -> Option<(PageContents, nat)> {
    match parse_page(data.skip(q)) {
        Ok(found) => Some(found),
        Err(_) => None,
    }
}

/// Whether no page starts in a part of a stream.
pub open spec fn no_page_in(data: Seq<u8>, from: int, to: int) -> bool {
    forall|r: int| from <= r < to ==> #[trigger] page_at(data, r) is None
}

proof fn lemma_no_capture(data: Seq<u8>, from: nat, r: int)
    requires
        from <= r < data.len(),
        next_capture(data, from) matches Some(q) ==> r < q,
    ensures
        page_at(data, r) is None,
    decreases data.len() - from,
{
    if from < r && from + 4 <= data.len() {
        lemma_no_capture(data, from + 1, r);
    } else {
        reveal(page_at);
    }
}

/// What a search does at its first position.
proof fn lemma_search_step(data: Seq<u8>, pos: nat)
    requires
        next_page(data, pos).0 is Some,
    ensures
        pos < data.len(),
        page_at(data, pos as int) matches Some((page, size)) ==> next_page(data, pos) == (
            Some(page),
            pos + size,
        ),
        page_at(data, pos as int) is None ==> (next_capture(data, pos + 1) matches Some(q)
            && next_page(data, pos) == next_page(data, q) && pos < q <= data.len()),
{
    reveal(page_at);
    lemma_next_capture(data, pos + 1);
}

/// A search finds the first page from a position on: it starts at some place
/// `q`, no earlier than there, and no page starts before it.
pub proof fn law_search_finds_first(data: Seq<u8>, pos: nat) -> (q: nat)
    requires
        next_page(data, pos).0 is Some,
    ensures
        pos <= q < data.len(),
        page_at(data, q as int) == Some(
            (next_page(data, pos).0->0, (next_page(data, pos).1 - q) as nat),
        ),
        no_page_in(data, pos as int, q as int),
    decreases data.len() - pos,
{
    lemma_search_step(data, pos);
    if page_at(data, pos as int) is Some {
        pos
    } else {
        let start = next_capture(data, pos + 1)->0;
        let q = law_search_finds_first(data, start);
        assert forall|r: int| pos <= r < q implies #[trigger] page_at(data, r) is None by {
            if pos < r < start {
                lemma_no_capture(data, pos + 1, r);
            }
        }
        q
    }
}

/// The data of some packets.
pub open spec fn packet_data(done: Seq<(Seq<u8>, int)>) -> Seq<Seq<u8>> {
    Seq::new(done.len(), |i: int| done[i].0)
}

/// The number of packets that end among the first `k` segments.
pub open spec fn ends(segments: Seq<u8>, k: int) -> nat
    decreases k,
{
    if k <= 0 {
        0
    } else {
        ends(segments, k - 1) + if segments[k - 1] < 255 {
            1nat
        } else {
            0
        }
    }
}

/// The state of a page that begins without loss, after some segments.
spec fn kept(start: Lacing, page: PageContents, k: int) -> bool {
    let now = start.laced_all(page, k);
    &&& !now.poisoned
    &&& joined(packet_data(now.done)) + now.partial == start.partial + page.body.take(
        laced(page.segments, k) as int,
    )
    &&& now.done.len() == ends(page.segments, k)
    &&& k > 0 ==> (now.have_partial <==> page.segments[k - 1] == 255)
    &&& forall|i: int|
        0 <= i < now.done.len() ==> 0 <= (#[trigger] now.done[i]).1 < k
            && page.segments[now.done[i].1] < 255
    &&& forall|i: int, j: int| 0 <= i < j < now.done.len() ==> now.done[i].1 < now.done[j].1
    &&& now.done.len() > 0 ==> forall|m: int|
        now.done.last().1 < m < k ==> page.segments[m] == 255
    &&& now.done.len() == 0 ==> forall|m: int| 0 <= m < k ==> page.segments[m] == 255
}

proof fn lemma_kept(start: Lacing, page: PageContents, k: int)
    requires
        page_valid(page),
        0 <= k <= page.segments.len(),
        start.done.len() == 0,
        !start.poisoned,
        start.partial.len() + page.body.len() <= MAX_PACKET_LEN,
    ensures
        kept(start, page, k),
    decreases k,
{
    lemma_laced_monotonic(page.segments, k, page.segments.len() as int);
    let now = start.laced_all(page, k);
    if k <= 0 {
        assert(packet_data(now.done) =~= seq![]);
        assert(page.body.take(0) =~= seq![]);
        assert(joined(packet_data(now.done)) + now.partial =~= start.partial + page.body.take(0));
    } else {
        lemma_kept(start, page, k - 1);
        let before = start.laced_all(page, k - 1);
        let at = laced(page.segments, k - 1) as int;
        let len = page.segments[k - 1] as int;
        let piece = page.body.subrange(at, at + len);
        let all = joined(packet_data(before.done)) + before.partial;
        assert(all.len() == start.partial.len() + at);
        assert(before.partial.len() <= all.len());
        assert(page.body.take(at + len) =~= page.body.take(at) + piece);
        assert(start.partial + page.body.take(at + len) =~= all + piece);
        if len < 255 {
            let data = before.partial + piece;
            assert(now.done == before.done.push((data, k - 1)));
            assert(packet_data(now.done).drop_last() =~= packet_data(before.done));
            assert(joined(packet_data(now.done)) + now.partial =~= all + piece);
            assert(now.done.last().1 == k - 1);
        } else {
            assert(joined(packet_data(now.done)) + now.partial =~= all + piece);
            if now.done.len() > 0 {
                assert forall|m: int| now.done.last().1 < m < k implies page.segments[m] == 255 by {
                    assert(before.done.last().1 == now.done.last().1);
                }
            }
        }
    }
}

/// Whether a page goes on where the last one ended: it is the next one, and
/// continues a packet if and only if one is open.
pub open spec fn goes_on(state: Assembly, page: PageContents) -> bool {
    &&& state.last_sequence matches Some(prev) ==> page.sequence == (if prev == u32::MAX {
        0
    } else {
        prev + 1
    })
    &&& page.continued == state.have_partial
}

/// No byte is lost between pages that go on: what was open and the body of the
/// page are the packets that complete on it, in order, and what is left open. As
/// many packets complete as there are segments shorter than 255 bytes, and one
/// is left open if the last segment is not. The granule position belongs to the
/// last packet, which alone completes the page.
pub proof fn law_no_byte_is_lost(state: Assembly, page: PageContents, i: int)
    requires
        page_valid(page),
        page.segments.len() > 0,
        goes_on(state, page),
        !state.poisoned,
        state.partial.len() + page.body.len() <= MAX_PACKET_LEN,
    ensures
        ({
            let (after, packets) = state.ingested(page);
            let data = Seq::new(packets.len(), |j: int| packets[j].data);
            &&& joined(data) + after.partial == state.partial + page.body
            &&& packets.len() == ends(page.segments, page.segments.len() as int)
            &&& after.have_partial <==> page.segments.last() == 255
            &&& !after.poisoned
            &&& after.last_sequence == Some(page.sequence)
            &&& 0 <= i < packets.len() - 1 ==> packets[i].granule_position == NO_GRANULE
                && !packets[i].completes_page
            &&& i == packets.len() - 1 && i >= 0 ==> packets[i].granule_position
                == page.granule_position && packets[i].completes_page
            &&& 0 <= i < packets.len() ==> packets[i].eos == page.eos
        }),
{
    let start = state.opened(page);
    let n = page.segments.len() as int;
    assert(state.consecutive(page));
    lemma_kept(start, page, n);
    let end = start.laced_all(page, n);
    let (after, packets) = state.ingested(page);
    assert(Seq::new(packets.len(), |j: int| packets[j].data) =~= packet_data(end.done));
    assert(page.body.take(laced(page.segments, n) as int) =~= page.body);
    if 0 <= i < packets.len() - 1 {
        let m = end.done[i + 1].1;
        assert(end.done[i].1 < m);
        assert(page.segments[m] < 255);
    }
}

/// Where a page does not go on, what was open is lost, and so is the first
/// packet of a page that continues one: the packets of the page depend on the
/// page alone, and are those of the first page of a stream.
pub proof fn law_broken_packets_are_lost(state: Assembly, page: PageContents)
    requires
        !goes_on(state, page),
    ensures
        state.ingested(page) == (Assembly {
            partial: seq![7u8],
            have_partial: !page.continued,
            poisoned: true,
            last_sequence: None,
        }).ingested(page),
        !page.continued ==> state.ingested(page) == Assembly::initial().ingested(page),
{
    assert(!(state.consecutive(page) && page.continued == state.have_partial));
}

/// The state of a page whose first packet is dropped, after some segments.
spec fn dropped(start: Lacing, page: PageContents, k: int) -> bool {
    let now = start.laced_all(page, k);
    let seen = ends(page.segments, k);
    &&& now.done.len() == if seen == 0 {
        0
    } else {
        seen - 1
    }
    &&& seen == 0 ==> now.poisoned && now.partial.len() == 0
    &&& seen > 0 ==> !now.poisoned && now.partial.len() <= laced(page.segments, k)
}

proof fn lemma_dropped(start: Lacing, page: PageContents, k: int)
    requires
        page_valid(page),
        0 <= k <= page.segments.len(),
        start.done.len() == 0,
        start.poisoned,
        start.partial.len() == 0,
        page.body.len() <= MAX_PACKET_LEN,
    ensures
        dropped(start, page, k),
    decreases k,
{
    lemma_laced_monotonic(page.segments, k, page.segments.len() as int);
    if k > 0 {
        lemma_dropped(start, page, k - 1);
    }
}

/// A page that continues a packet of which the beginning is missing gives one
/// packet less than complete on it.
pub proof fn law_headless_packet_is_dropped(state: Assembly, page: PageContents)
    requires
        page_valid(page),
        page.continued,
        !goes_on(state, page),
        page.body.len() <= MAX_PACKET_LEN,
    ensures
        ({
            let seen = ends(page.segments, page.segments.len() as int);
            state.ingested(page).1.len() == if seen == 0 {
                0
            } else {
                seen - 1
            }
        }),
{
    assert(!(state.consecutive(page) && page.continued == state.have_partial));
    lemma_dropped(state.opened(page), page, page.segments.len() as int);
}

/// The lacing values of a packet of `n` bytes: one of 255 for every 255 bytes,
/// and then the rest, which may be zero.
pub open spec fn lacing(n: nat) -> Seq<u8> {
    Seq::new(n / 255, |i: int| 255u8).push((n % 255) as u8)
}

/// The segment tables of some pages.
pub open spec fn tables(pages: Seq<PageContents>) -> Seq<Seq<u8>> {
    Seq::new(pages.len(), |i: int| pages[i].segments)
}

/// The bodies of some pages.
pub open spec fn bodies(pages: Seq<PageContents>) -> Seq<Seq<u8>> {
    Seq::new(pages.len(), |i: int| pages[i].body)
}

proof fn lemma_joined_more(a: Seq<Seq<u8>>, b: Seq<Seq<u8>>)
    ensures
        joined(a + b) == joined(a) + joined(b),
    decreases b.len(),
{
    if b.len() == 0 {
        assert(a + b =~= a);
        assert(joined(a) + joined(b) =~= joined(a));
    } else {
        lemma_joined_more(a, b.drop_last());
        assert((a + b).drop_last() =~= a + b.drop_last());
        assert(joined(a + b) =~= joined(a) + joined(b));
    }
}

proof fn lemma_joined_one(s: Seq<u8>)
    ensures
        joined(seq![s]) == s,
{
    assert(seq![s].drop_last() =~= seq![]);
    assert(joined(seq![s].drop_last()) =~= seq![]);
    assert(joined(seq![s]) =~= s);
}

proof fn lemma_stepped(st: WriterState, rest: Seq<u8>, granule: u64, eos: bool)
    requires
        st.segments.len() < 255,
    ensures
        ({
            let (next, pages) = st.stepped(rest, granule, eos);
            let take = WriterState::piece(rest);
            &&& joined(tables(pages)) + next.segments == st.segments.push(take as u8)
            &&& joined(bodies(pages)) + next.body == st.body + rest.take(take)
            &&& forall|i: int| 0 <= i < pages.len() ==> (#[trigger] pages[i]).segments.len() == 255
            &&& next.segments.len() < 255
        }),
{
    let (next, pages) = st.stepped(rest, granule, eos);
    let laced = st.laced_with(rest, granule);
    if pages.len() == 0 {
        assert(tables(pages) =~= seq![]);
        assert(bodies(pages) =~= seq![]);
        assert(joined(tables(pages)) + next.segments =~= laced.segments);
        assert(joined(bodies(pages)) + next.body =~= laced.body);
    } else {
        assert(tables(pages) =~= seq![laced.segments]);
        assert(bodies(pages) =~= seq![laced.body]);
        lemma_joined_one(laced.segments);
        lemma_joined_one(laced.body);
        assert(laced.segments + next.segments =~= laced.segments);
        assert(laced.body + next.body =~= laced.body);
    }
}

/// A packet is laced in pieces of 255 bytes: behind what was pending come its
/// lacing values and its bytes, over as many pages as they fill. A page leaves
/// when it has 255 segments, and not before.
pub proof fn law_packet_is_laced(st: WriterState, packet: Seq<u8>, granule: u64, eos: bool)
    requires
        st.segments.len() < 255,
    ensures
        ({
            let (end, pages) = st.laced_all(packet, granule, eos);
            &&& joined(tables(pages)) + end.segments == st.segments + lacing(packet.len())
            &&& joined(bodies(pages)) + end.body == st.body + packet
            &&& forall|i: int| 0 <= i < pages.len() ==> (#[trigger] pages[i]).segments.len() == 255
            &&& end.segments.len() < 255
        }),
    decreases packet.len(),
{
    let (next, pages) = st.stepped(packet, granule, eos);
    lemma_stepped(st, packet, granule, eos);
    if packet.len() < 255 {
        assert(packet.take(packet.len() as int) =~= packet);
        assert(st.segments.push(packet.len() as u8) =~= st.segments + lacing(packet.len()));
    } else {
        let rest = packet.skip(255);
        law_packet_is_laced(next, rest, granule, eos);
        let (end, more) = next.laced_all(rest, granule, eos);
        let all = pages + more;
        assert(tables(all) =~= tables(pages) + tables(more));
        assert(bodies(all) =~= bodies(pages) + bodies(more));
        lemma_joined_more(tables(pages), tables(more));
        lemma_joined_more(bodies(pages), bodies(more));
        assert(lacing(packet.len()) =~= seq![255u8] + lacing(rest.len()));
        assert(joined(tables(all)) + end.segments =~= joined(tables(pages)) + (joined(tables(more))
            + end.segments));
        assert(joined(tables(pages)) + (next.segments + lacing(rest.len())) =~= (joined(
            tables(pages),
        ) + next.segments) + lacing(rest.len()));
        assert(st.segments.push(255u8) + lacing(rest.len()) =~= st.segments + lacing(packet.len()));
        assert(joined(bodies(all)) + end.body =~= joined(bodies(pages)) + (joined(bodies(more))
            + end.body));
        assert(joined(bodies(pages)) + (next.body + rest) =~= (joined(bodies(pages)) + next.body)
            + rest);
        assert(packet.take(255) + rest =~= packet);
        assert((st.body + packet.take(255)) + rest =~= st.body + packet);
    }
}

} // verus!
