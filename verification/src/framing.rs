//! How frames become packets.
//!
//! The functions here say what the bytes of a packet are, from its frames; the
//! laws say that parsing those bytes gives the frames back.

use vstd::prelude::*;

use crate::packet::{
    announced_padding, contents, cut, explicit_layout, frame_count, frame_count_valid, len_field, len_fields, offset,
    packet_layout, padding_field, repeated, self_delimited_layout, toc_code, total, vbr_layout,
    within_duration, Layout, PacketContents, PacketError, MAX_FRAME_LEN,
};

verus! {

/// The code of a frame length: itself below 252; otherwise 252 and its last two
/// bits, and then how often four must be added.
pub open spec fn len_code(n: nat) -> Seq<u8> {
    if n < 252 {
        seq![n as u8]
    } else {
        seq![(252 + n % 4) as u8, ((n - 252) / 4) as u8]
    }
}

/// A frame length is read back from its code, whatever follows. The longest is
/// 1275.
pub proof fn law_length_round_trip(n: nat, rest: Seq<u8>)
    requires
        n <= 1275,
    ensures
        len_field(len_code(n) + rest) == Some((n, len_code(n).len())),
{
    let s = len_code(n) + rest;
    assert(s[0] == len_code(n)[0]);
    if n >= 252 {
        assert(s[1] == len_code(n)[1]);
        assert(n == 252 + n % 4 + 4 * ((n - 252) / 4)) by {
            assert((n - 252) % 4 == n % 4);
        }
    }
}

/// The codes of some frame lengths, one after the other.
pub open spec fn len_codes(lens: Seq<nat>) -> Seq<u8>
    decreases lens.len(),
{
    if lens.len() == 0 {
        seq![]
    } else {
        len_codes(lens.drop_last()) + len_code(lens.last())
    }
}

proof fn lemma_lengths_read(lens: Seq<nat>, rest: Seq<u8>)
    requires
        forall|i: int| 0 <= i < lens.len() ==> (#[trigger] lens[i]) <= 1275,
    ensures
        len_fields(len_codes(lens) + rest, lens.len()) == Some((lens, len_codes(lens).len())),
    decreases lens.len(),
{
    let s = len_codes(lens) + rest;
    if lens.len() > 0 {
        let before = lens.drop_last();
        let tail = len_code(lens.last()) + rest;
        assert(s =~= len_codes(before) + tail);
        lemma_lengths_read(before, tail);
        law_length_round_trip(lens.last(), rest);
        assert(s.skip(len_codes(before).len() as int) =~= tail);
        assert(before.push(lens.last()) =~= lens);
    } else {
        assert(lens =~= Seq::<nat>::empty());
    }
}

/// The code of a padding of `254 * many + last` bytes.
pub open spec fn padding_code(many: nat, last: u8) -> Seq<u8> {
    Seq::new(many, |i: int| 255u8) + seq![last]
}

/// A padding length is read back from its code: every 255 stands for 254 bytes.
pub proof fn law_padding_round_trip(many: nat, last: u8, rest: Seq<u8>)
    requires
        last < 255,
    ensures
        padding_field(padding_code(many, last) + rest) == Some((254 * many + last as nat, many + 1)),
    decreases many,
{
    let s = padding_code(many, last) + rest;
    if many > 0 {
        law_padding_round_trip((many - 1) as nat, last, rest);
        assert(s[0] == 255);
        assert(s.skip(1) =~= padding_code((many - 1) as nat, last) + rest);
    } else {
        assert(s[0] == last);
    }
}

/// Frames, one behind the other.
pub open spec fn joined(frames: Seq<Seq<u8>>) -> Seq<u8>
    decreases frames.len(),
{
    if frames.len() == 0 {
        seq![]
    } else {
        joined(frames.drop_last()) + frames.last()
    }
}

/// The lengths of frames.
pub open spec fn lens_of(frames: Seq<Seq<u8>>) -> Seq<nat> {
    Seq::new(frames.len(), |i: int| frames[i].len())
}

proof fn lemma_offsets(frames: Seq<Seq<u8>>, i: int)
    requires
        0 <= i <= frames.len(),
    ensures
        offset(lens_of(frames), i) == joined(frames.take(i)).len(),
        offset(lens_of(frames), i) <= joined(frames).len(),
        i < frames.len() ==> offset(lens_of(frames), i + 1) <= joined(frames).len()
            && joined(frames).subrange(
            offset(lens_of(frames), i) as int,
            offset(lens_of(frames), i + 1) as int,
        ) == frames[i],
    decreases frames.len(), i,
{
    let n = frames.len() as int;
    if i > 0 {
        lemma_offsets(frames, i - 1);
        assert(frames.take(i).drop_last() =~= frames.take(i - 1));
    }
    if i == n {
        assert(frames.take(n) =~= frames);
    } else if i < n {
        let before = frames.drop_last();
        lemma_same_offset(lens_of(frames), lens_of(before), i);
        if i < n - 1 {
            lemma_offsets(before, i);
            lemma_same_offset(lens_of(frames), lens_of(before), i + 1);
            let a = offset(lens_of(frames), i) as int;
            let b = offset(lens_of(frames), i + 1) as int;
            assert(joined(frames).subrange(a, b) =~= joined(before).subrange(a, b));
        } else {
            assert(frames.take(i) =~= before);
            let a = offset(lens_of(frames), i) as int;
            assert(joined(frames).subrange(a, a + frames.last().len()) =~= frames.last());
        }
    }
}

proof fn lemma_same_offset(a: Seq<nat>, b: Seq<nat>, i: int)
    requires
        i <= a.len(),
        i <= b.len(),
        forall|k: int| 0 <= k < i ==> a[k] == b[k],
    ensures
        offset(a, i) == offset(b, i),
    decreases i,
{
    if i > 0 {
        lemma_same_offset(a, b, i - 1);
    }
}

/// A layout that names the header and the frames finds the frames.
proof fn lemma_laid_out(head: Seq<u8>, frames: Seq<Seq<u8>>, tail: Seq<u8>, padding: nat)
    ensures
        ({
            let data = head + joined(frames) + tail;
            let layout = Layout { header: head.len(), lens: lens_of(frames), padding };
            &&& layout.frames(data) == frames
            &&& total(lens_of(frames)) == joined(frames).len()
        }),
{
    let data = head + joined(frames) + tail;
    let body = data.skip(head.len() as int);
    assert(body =~= joined(frames) + tail);
    let lens = lens_of(frames);
    lemma_offsets(frames, frames.len() as int);
    assert(frames.take(frames.len() as int) =~= frames);
    let pieces = cut(body, lens);
    assert forall|i: int| 0 <= i < frames.len() implies #[trigger] pieces[i] == frames[i] by {
        lemma_offsets(frames, i);
        let a = offset(lens, i) as int;
        let b = offset(lens, i + 1) as int;
        assert(body.subrange(a, b) =~= joined(frames).subrange(a, b));
    }
    assert(pieces =~= frames);
}

/// Whether frames can be carried together under a table-of-contents byte.
pub open spec fn frames_carried(toc: u8, frames: Seq<Seq<u8>>) -> bool {
    &&& 1 <= frames.len() <= 63
    &&& within_duration(toc, frames.len())
    &&& forall|i: int| 0 <= i < frames.len() ==> (#[trigger] frames[i]).len() <= MAX_FRAME_LEN
}

/// Whether all frames are equally long.
pub open spec fn equally_long(frames: Seq<Seq<u8>>) -> bool {
    forall|i: int| 0 <= i < frames.len() ==> (#[trigger] frames[i]).len() == frames[0].len()
}

/// The head of a packet with a signalled number of frames: the frame count byte
/// has a bit for lengths that vary and one for padding.
pub open spec fn counted_head(toc: u8, count: nat, vbr: bool, padding: Option<(nat, u8)>) -> Seq<u8> {
    let byte = (count + (if vbr {
        128nat
    } else {
        0
    }) + (if padding is Some {
        64nat
    } else {
        0
    })) as u8;
    seq![toc, byte] + match padding {
        Some((many, last)) => padding_code(many, last),
        None => seq![],
    }
}

/// The number of bytes of a padding.
pub open spec fn padding_bytes(padding: Option<(nat, u8)>) -> nat {
    match padding {
        Some((many, last)) => 254 * many + last as nat,
        None => 0,
    }
}

proof fn lemma_head(toc: u8, count: nat, vbr: bool, padding: Option<(nat, u8)>, rest: Seq<u8>)
    requires
        1 <= count <= 63,
        padding matches Some((_, last)) ==> last < 255,
    ensures
        ({
            let head = counted_head(toc, count, vbr, padding);
            let data = head + rest;
            &&& data[0] == toc
            &&& frame_count(data) == count
            &&& data[1] >= 128 <==> vbr
            &&& announced_padding(data) == Some((padding_bytes(padding), (head.len() - 2) as nat))
            &&& data.skip(head.len() as int) == rest
        }),
{
    let head = counted_head(toc, count, vbr, padding);
    let data = head + rest;
    assert(data[1] == head[1]);
    assert(data.skip(head.len() as int) =~= rest);
    match padding {
        Some((many, last)) => {
            law_padding_round_trip(many, last, rest);
            assert(data.skip(2) =~= padding_code(many, last) + rest);
        },
        None => {},
    }
}

proof fn lemma_counted_varying(data: Seq<u8>, used: nat, padding: nat)
    requires
        data.len() >= 2 + used + padding,
        toc_code(data[0]) == 3,
        frame_count_valid(data),
        data[1] >= 128,
        announced_padding(data) == Some((padding, used)),
    ensures
        packet_layout(data) == vbr_layout(
            2 + used,
            data.subrange(2 + used as int, data.len() - padding),
            frame_count(data),
            padding,
        ),
{
    let header = 2 + used;
    let payload = data.len() - header - padding;
    assert(header + payload == data.len() - padding);
}

proof fn lemma_counted_delimited(data: Seq<u8>, used: nat, padding: nat, fields: Option<(Seq<nat>, nat)>)
    requires
        data.len() >= 2 + used,
        toc_code(data[0]) == 3,
        frame_count_valid(data),
        announced_padding(data) == Some((padding, used)),
        data[1] >= 128 ==> fields == len_fields(data.skip(2 + used as int), frame_count(data)),
        data[1] < 128 ==> fields == repeated(
            len_field(data.skip(2 + used as int)),
            frame_count(data),
        ),
    ensures
        self_delimited_layout(data) == explicit_layout(data, 2 + used, fields, padding),
{
}

proof fn lemma_fixed_delimited(data: Seq<u8>, fields: Option<(Seq<nat>, nat)>)
    requires
        data.len() >= 1,
        toc_code(data[0]) < 3,
        toc_code(data[0]) == 0 ==> fields == len_fields(data.skip(1), 1),
        toc_code(data[0]) == 1 ==> fields == repeated(len_field(data.skip(1)), 2),
        toc_code(data[0]) == 2 ==> fields == len_fields(data.skip(1), 2),
    ensures
        self_delimited_layout(data) == explicit_layout(data, 1, fields, 0),
{
}

/// Frames of any lengths, with their number, come back from a packet: after the
/// head come the lengths of all but the last frame, the frames, and the padding.
#[verifier::spinoff_prover]
#[verifier::rlimit(40)]
pub proof fn law_varying_frames_round_trip(
    toc: u8,
    frames: Seq<Seq<u8>>,
    padding: Option<(nat, u8)>,
    fill: Seq<u8>,
)
    requires
        toc_code(toc) == 3,
        frames_carried(toc, frames),
        padding matches Some((_, last)) ==> last < 255,
        fill.len() == padding_bytes(padding),
    ensures
        ({
            let data = counted_head(toc, frames.len(), true, padding) + len_codes(
                lens_of(frames).drop_last(),
            ) + joined(frames) + fill;
            packet_layout(data) matches Ok(layout) && contents(data, layout) == (PacketContents {
                toc,
                frames,
                padding: fill.len(),
            })
        }),
{
    let start = counted_head(toc, frames.len(), true, padding);
    let codes = len_codes(lens_of(frames).drop_last());
    let head = start + codes;
    let data = head + joined(frames) + fill;
    let rest = codes + joined(frames) + fill;
    assert(data =~= start + rest);
    lemma_head(toc, frames.len(), true, padding, rest);
    let payload = data.subrange(start.len() as int, data.len() - fill.len());
    assert(payload =~= codes + joined(frames));
    lemma_varying_layout(start.len(), frames, fill.len());
    lemma_laid_out(head, frames, fill, fill.len());
    lemma_counted_varying(data, (start.len() - 2) as nat, fill.len());
}

proof fn lemma_varying_layout(header: nat, frames: Seq<Seq<u8>>, padding: nat)
    requires
        1 <= frames.len(),
        forall|i: int| 0 <= i < frames.len() ==> (#[trigger] frames[i]).len() <= MAX_FRAME_LEN,
    ensures
        ({
            let codes = len_codes(lens_of(frames).drop_last());
            vbr_layout(header, codes + joined(frames), frames.len(), padding) == Ok::<
                Layout,
                PacketError,
            >(Layout { header: header + codes.len(), lens: lens_of(frames), padding })
        }),
{
    let lens = lens_of(frames);
    let codes = len_codes(lens.drop_last());
    lemma_lengths_read(lens.drop_last(), joined(frames));
    lemma_laid_out(seq![], frames, seq![], padding);
    lemma_same_offset(lens, lens.drop_last(), lens.len() - 1);
    assert(lens.drop_last().push(lens.last()) =~= lens);
}

proof fn lemma_one_length(lens: Seq<nat>)
    requires
        lens.len() == 1,
    ensures
        len_codes(lens) == len_code(lens[0]),
{
    reveal_with_fuel(len_codes, 2);
    assert(len_codes(lens) =~= len_code(lens[0]));
}

proof fn lemma_equal_total(frames: Seq<Seq<u8>>)
    requires
        equally_long(frames),
        frames.len() > 0,
    ensures
        joined(frames).len() == frames.len() * frames[0].len(),
    decreases frames.len(),
{
    let n = frames.len() as int;
    let len = frames[0].len() as int;
    if n == 1 {
        reveal_with_fuel(joined, 2);
        assert(1 * len == len);
    } else {
        let before = frames.drop_last();
        assert(before[0] == frames[0]);
        assert forall|i: int| 0 <= i < before.len() implies (#[trigger] before[i]).len()
            == before[0].len() by {
            assert(before[i] == frames[i]);
        }
        lemma_equal_total(before);
        assert((n - 1) * len + len == n * len) by (nonlinear_arith);
    }
}

/// Frames that are equally long, with their number, come back from a packet that
/// names no length.
pub proof fn law_equal_frames_round_trip(
    toc: u8,
    frames: Seq<Seq<u8>>,
    padding: Option<(nat, u8)>,
    fill: Seq<u8>,
)
    requires
        toc_code(toc) == 3,
        frames_carried(toc, frames),
        equally_long(frames),
        padding matches Some((_, last)) ==> last < 255,
        fill.len() == padding_bytes(padding),
    ensures
        ({
            let data = counted_head(toc, frames.len(), false, padding) + joined(frames) + fill;
            packet_layout(data) matches Ok(layout) && contents(data, layout) == (PacketContents {
                toc,
                frames,
                padding: fill.len(),
            })
        }),
{
    let head = counted_head(toc, frames.len(), false, padding);
    let data = head + joined(frames) + fill;
    assert(data =~= head + (joined(frames) + fill));
    lemma_head(toc, frames.len(), false, padding, joined(frames) + fill);
    lemma_laid_out(head, frames, fill, fill.len());
    lemma_equal_total(frames);
    lemma_shares(frames);
}

proof fn lemma_shares(frames: Seq<Seq<u8>>)
    requires
        frames.len() > 0,
        equally_long(frames),
    ensures
        joined(frames).len() as int / frames.len() as int == frames[0].len(),
        joined(frames).len() as int % frames.len() as int == 0,
        Seq::new(frames.len(), |i: int| frames[0].len()) =~= lens_of(frames),
{
    lemma_equal_total(frames);
    let n = frames.len() as int;
    let len = frames[0].len() as int;
    assert(n * len == len * n) by (nonlinear_arith);
    vstd::arithmetic::div_mod::lemma_fundamental_div_mod_converse(len * n, n, len, 0);
}

/// Two frames come back from a packet for two: without a length if they are
/// equally long, and otherwise with that of the first.
pub proof fn law_two_frames_round_trip(toc: u8, frames: Seq<Seq<u8>>)
    requires
        frames.len() == 2,
        frames_carried(toc, frames),
    ensures
        toc_code(toc) == 1 && frames[0].len() == frames[1].len() ==> {
            let data = seq![toc] + joined(frames);
            packet_layout(data) matches Ok(layout) && contents(data, layout) == (PacketContents {
                toc,
                frames,
                padding: 0,
            })
        },
        toc_code(toc) == 2 ==> {
            let data = seq![toc] + len_code(frames[0].len()) + joined(frames);
            packet_layout(data) matches Ok(layout) && contents(data, layout) == (PacketContents {
                toc,
                frames,
                padding: 0,
            })
        },
{
    let lens = lens_of(frames);
    if toc_code(toc) == 1 && frames[0].len() == frames[1].len() {
        let head = seq![toc];
        let data = head + joined(frames);
        assert(data + seq![] =~= data);
        lemma_laid_out(head, frames, seq![], 0);
        assert(equally_long(frames));
        lemma_shares(frames);
        lemma_equal_total(frames);
    }
    if toc_code(toc) == 2 {
        let code = len_code(frames[0].len());
        let head = seq![toc] + code;
        let data = head + joined(frames);
        assert(data + seq![] =~= data);
        assert(data.skip(1) =~= code + joined(frames));
        lemma_laid_out(head, frames, seq![], 0);
        let first = seq![frames[0].len()];
        reveal_with_fuel(len_codes, 2);
        assert(len_codes(first) =~= code);
        lemma_lengths_read(first, joined(frames));
        assert(lens.drop_last() =~= first);
        lemma_same_offset(lens, first, 1);
        assert(first.push(lens.last()) =~= lens);
    }
}

/// Frames come back from a self-delimited packet of any kind, whatever follows
/// it; the packet ends where its last byte is. One length stands for all frames
/// where they are equally long.
#[verifier::spinoff_prover]
#[verifier::rlimit(40)]
pub proof fn law_self_delimited_round_trip(
    toc: u8,
    frames: Seq<Seq<u8>>,
    vbr: bool,
    padding: Option<(nat, u8)>,
    fill: Seq<u8>,
    rest: Seq<u8>,
)
    requires
        frames_carried(toc, frames),
        !vbr ==> equally_long(frames),
        padding matches Some((_, last)) ==> last < 255,
        fill.len() == padding_bytes(padding),
        toc_code(toc) == 0 ==> frames.len() == 1,
        toc_code(toc) == 1 ==> frames.len() == 2 && !vbr,
        toc_code(toc) == 2 ==> frames.len() == 2 && vbr,
        toc_code(toc) < 3 ==> padding is None,
    ensures
        ({
            let start = if toc_code(toc) < 3 {
                seq![toc]
            } else {
                counted_head(toc, frames.len(), vbr, padding)
            };
            let codes = if vbr {
                len_codes(lens_of(frames))
            } else {
                len_code(frames[0].len())
            };
            let packet = start + codes + joined(frames) + fill;
            let data = packet + rest;
            self_delimited_layout(data) matches Ok(layout) && layout.size() == packet.len()
                && contents(data, layout) == (PacketContents { toc, frames, padding: fill.len() })
        }),
{
    let lens = lens_of(frames);
    let start = if toc_code(toc) < 3 {
        seq![toc]
    } else {
        counted_head(toc, frames.len(), vbr, padding)
    };
    let codes = if vbr {
        len_codes(lens)
    } else {
        len_code(frames[0].len())
    };
    let packet = start + codes + joined(frames) + fill;
    let data = packet + rest;
    let after = joined(frames) + fill + rest;
    assert(data =~= start + (codes + after));
    lemma_named_lengths(frames, vbr, after);
    if toc_code(toc) == 3 {
        lemma_counted_start(toc, frames, vbr, padding, fill, codes, after);
    } else {
        lemma_fixed_start(toc, frames, vbr, codes, after);
    }
    lemma_delimited(start, codes, frames, fill, rest);
}

proof fn lemma_counted_start(
    toc: u8,
    frames: Seq<Seq<u8>>,
    vbr: bool,
    padding: Option<(nat, u8)>,
    fill: Seq<u8>,
    codes: Seq<u8>,
    after: Seq<u8>,
)
    requires
        frames_carried(toc, frames),
        toc_code(toc) == 3,
        padding matches Some((_, last)) ==> last < 255,
        fill.len() == padding_bytes(padding),
        vbr ==> len_fields(codes + after, frames.len()) == Some((lens_of(frames), codes.len())),
        !vbr ==> repeated(len_field(codes + after), frames.len()) == Some(
            (lens_of(frames), codes.len()),
        ),
    ensures
        ({
            let start = counted_head(toc, frames.len(), vbr, padding);
            let data = start + (codes + after);
            self_delimited_layout(data) == explicit_layout(
                data,
                start.len(),
                Some((lens_of(frames), codes.len())),
                fill.len(),
            )
        }),
{
    let start = counted_head(toc, frames.len(), vbr, padding);
    let data = start + (codes + after);
    lemma_head(toc, frames.len(), vbr, padding, codes + after);
    lemma_counted_delimited(
        data,
        (start.len() - 2) as nat,
        fill.len(),
        Some((lens_of(frames), codes.len())),
    );
}

proof fn lemma_fixed_start(
    toc: u8,
    frames: Seq<Seq<u8>>,
    vbr: bool,
    codes: Seq<u8>,
    after: Seq<u8>,
)
    requires
        toc_code(toc) < 3,
        toc_code(toc) == 0 ==> frames.len() == 1,
        toc_code(toc) == 1 ==> frames.len() == 2 && !vbr,
        toc_code(toc) == 2 ==> frames.len() == 2 && vbr,
        vbr || frames.len() == 1 ==> len_fields(codes + after, frames.len()) == Some(
            (lens_of(frames), codes.len()),
        ),
        !vbr ==> repeated(len_field(codes + after), frames.len()) == Some(
            (lens_of(frames), codes.len()),
        ),
    ensures
        ({
            let data = seq![toc] + (codes + after);
            self_delimited_layout(data) == explicit_layout(
                data,
                1,
                Some((lens_of(frames), codes.len())),
                0,
            )
        }),
{
    let data = seq![toc] + (codes + after);
    assert(data[0] == toc);
    assert(data.skip(1) =~= codes + after);
    lemma_fixed_delimited(data, Some((lens_of(frames), codes.len())));
}

proof fn lemma_delimited(
    start: Seq<u8>,
    codes: Seq<u8>,
    frames: Seq<Seq<u8>>,
    fill: Seq<u8>,
    rest: Seq<u8>,
)
    requires
        start.len() >= 1,
    ensures
        ({
            let packet = start + codes + joined(frames) + fill;
            let data = packet + rest;
            let found = explicit_layout(
                data,
                start.len(),
                Some((lens_of(frames), codes.len())),
                fill.len(),
            );
            found matches Ok(layout) && layout.size() == packet.len() && contents(data, layout) == (
            PacketContents { toc: start[0], frames, padding: fill.len() })
        }),
{
    let head = start + codes;
    let data = head + joined(frames) + fill + rest;
    assert(data =~= head + joined(frames) + (fill + rest));
    lemma_laid_out(head, frames, fill + rest, fill.len());
    assert(data[0] == start[0]);
}

proof fn lemma_named_lengths(frames: Seq<Seq<u8>>, vbr: bool, after: Seq<u8>)
    requires
        1 <= frames.len(),
        forall|i: int| 0 <= i < frames.len() ==> (#[trigger] frames[i]).len() <= MAX_FRAME_LEN,
        !vbr ==> equally_long(frames),
    ensures
        vbr ==> len_fields(len_codes(lens_of(frames)) + after, frames.len()) == Some(
            (lens_of(frames), len_codes(lens_of(frames)).len()),
        ),
        !vbr ==> repeated(len_field(len_code(frames[0].len()) + after), frames.len()) == Some(
            (lens_of(frames), len_code(frames[0].len()).len()),
        ),
        !vbr && frames.len() == 1 ==> len_fields(len_code(frames[0].len()) + after, 1) == Some(
            (lens_of(frames), len_code(frames[0].len()).len()),
        ),
{
    let lens = lens_of(frames);
    assert(frames[0].len() <= 1275);
    if vbr {
        lemma_lengths_read(lens, after);
    } else {
        law_length_round_trip(frames[0].len(), after);
        lemma_shares(frames);
        if frames.len() == 1 {
            lemma_one_length(lens);
            lemma_lengths_read(lens, after);
        }
    }
}

} // verus!
