//! The files in which test bitstreams are kept: one record per packet, with the
//! length of the packet and the final range of its coder, both as big-endian
//! words, before the packet itself.

use vstd::prelude::*;
use vstd::slice::slice_subrange;

verus! {

/// The contents of a record.
#[verifier::ext_equal]
pub struct RecordContents {
    pub final_range: u32,
    pub packet: Seq<u8>,
}

/// A record of a bitstream file.
#[derive(Debug, Clone, Copy)]
pub struct Record<'a> {
    /// The range state that a conformant decoder finishes the packet with.
    pub final_range: u32,
    /// The packet.
    pub packet: &'a [u8],
}

impl View for Record<'_> {
    type V = RecordContents;

    open spec fn view(&self) -> RecordContents {
        RecordContents { final_range: self.final_range, packet: self.packet@ }
    }
}

/// The word in the first four bytes, with the most significant byte first.
pub open spec fn word_at(s: Seq<u8>) -> int {
    0x100_0000 * s[0] + 0x1_0000 * s[1] + 0x100 * s[2] + s[3]
}

/// The four bytes of a word, with the most significant byte first.
pub open spec fn word_bytes(w: int) -> Seq<u8> {
    seq![
        (w / 0x100_0000) as u8,
        (w / 0x1_0000 % 0x100) as u8,
        (w / 0x100 % 0x100) as u8,
        (w % 0x100) as u8,
    ]
}

/// The records in a file. What is too short for the head of a record is left
/// out; `None` where a packet reaches beyond the end.
pub open spec fn records_in(data: Seq<u8>) -> Option<Seq<RecordContents>>
    decreases data.len(),
{
    if data.len() < 8 {
        Some(seq![])
    } else {
        let end = 8 + word_at(data);
        if end > data.len() {
            None
        } else {
            let first = RecordContents {
                final_range: word_at(data.skip(4)) as u32,
                packet: data.subrange(8, end),
            };
            match records_in(data.skip(end)) {
                None => None,
                Some(more) => Some(seq![first] + more),
            }
        }
    }
}

/// The bytes of a record.
pub open spec fn record_bytes(record: RecordContents) -> Seq<u8> {
    word_bytes(record.packet.len() as int) + word_bytes(record.final_range as int) + record.packet
}

/// The bytes of a run of records.
pub open spec fn file_bytes(records: Seq<RecordContents>) -> Seq<u8>
    decreases records.len(),
{
    if records.len() == 0 {
        seq![]
    } else {
        record_bytes(records[0]) + file_bytes(records.skip(1))
    }
}

/// The contents of a run of records.
pub open spec fn record_views(records: Seq<Record<'_>>) -> Seq<RecordContents> {
    Seq::new(records.len(), |i: int| records[i]@)
}

/// Records read before the others.
pub open spec fn read_before(
    before: Seq<RecordContents>,
    rest: Option<Seq<RecordContents>>,
) -> Option<Seq<RecordContents>> {
    match rest {
        None => None,
        Some(more) => Some(before + more),
    }
}

/// Reads the word at `at`.
fn read_word(data: &[u8], at: usize) -> (w: u32)
    requires
        at + 4 <= data@.len(),
    ensures
        w == word_at(data@.skip(at as int)),
{
    data[at] as u32 * 0x100_0000 + data[at + 1] as u32 * 0x1_0000 + data[at + 2] as u32 * 0x100
        + data[at + 3] as u32
}

/// Appends the four bytes of a word.
fn write_word(out: &mut Vec<u8>, w: u32)
    ensures
        final(out)@ == old(out)@ + word_bytes(w as int),
{
    let ghost before = out@;
    out.push((w / 0x100_0000) as u8);
    out.push((w / 0x1_0000 % 0x100) as u8);
    out.push((w / 0x100 % 0x100) as u8);
    out.push((w % 0x100) as u8);
    assert(out@ =~= before + word_bytes(w as int));
}

/// Reads the records of a file, or returns `None` where a packet reaches beyond
/// the end.
#[must_use]
pub fn read_records<'a>(data: &'a [u8]) -> (res: Option<Vec<Record<'a>>>)
    ensures
        match records_in(data@) {
            Some(records) => res matches Some(found) && record_views(found@) == records,
            None => res is None,
        },
{
    let len = data.len();
    let mut found: Vec<Record<'a>> = Vec::new();
    let mut at: usize = 0;
    let ghost goal = records_in(data@);
    proof {
        assert(data@.skip(0) =~= data@);
        assert(record_views(found@) =~= seq![]);
        if goal is Some {
            assert(seq![] + goal->0 =~= goal->0);
        }
    }
    while len - at >= 8
        invariant
            at <= len,
            len == data@.len(),
            goal == records_in(data@),
            goal == read_before(record_views(found@), records_in(data@.skip(at as int))),
        decreases len - at,
    {
        let ghost rest = data@.skip(at as int);
        let ghost before = record_views(found@);
        let n = read_word(data, at);
        proof {
            assert(data@.skip(at + 4) =~= rest.skip(4));
        }
        let final_range = read_word(data, at + 4);
        at = at + 8;
        if n as usize > len - at {
            return None;
        }
        let end = at + n as usize;
        let packet = slice_subrange(data, at, end);
        let record = Record { final_range, packet };
        found.push(record);
        proof {
            let ghost_end = 8 + word_at(rest);
            assert(record@.packet =~= rest.subrange(8, ghost_end));
            assert(data@.skip(end as int) =~= rest.skip(ghost_end));
            assert(record_views(found@) =~= before.push(record@));
            let after = records_in(rest.skip(ghost_end));
            if after is Some {
                assert(before + (seq![record@] + after->0) =~= before.push(record@) + after->0);
            }
        }
        at = end;
    }
    proof {
        assert(record_views(found@) + seq![] =~= record_views(found@));
    }
    Some(found)
}

/// Appends a record to a file.
pub fn write_record(out: &mut Vec<u8>, packet: &[u8], final_range: u32)
    requires
        packet@.len() <= u32::MAX,
    ensures
        final(out)@ == old(out)@ + record_bytes(
            RecordContents { final_range, packet: packet@ },
        ),
{
    let ghost before = out@;
    write_word(out, packet.len() as u32);
    write_word(out, final_range);
    out.extend_from_slice(packet);
    assert(out@ =~= before + record_bytes(RecordContents { final_range, packet: packet@ }));
}

proof fn lemma_word_round_trip(w: int, s: Seq<u8>)
    requires
        0 <= w <= u32::MAX,
        s.len() >= 4,
        s.take(4) == word_bytes(w),
    ensures
        word_at(s) == w,
{
    assert(s[0] == s.take(4)[0] && s[1] == s.take(4)[1]);
    assert(s[2] == s.take(4)[2] && s[3] == s.take(4)[3]);
}

/// The parts of a record at the front of a file.
proof fn lemma_first_record(record: RecordContents, rest: Seq<u8>)
    requires
        record.packet.len() <= u32::MAX,
    ensures
        ({
            let data = record_bytes(record) + rest;
            let end = 8 + record.packet.len() as int;
            &&& data.len() == end + rest.len()
            &&& word_at(data) + 8 == end
            &&& word_at(data.skip(4)) == record.final_range
            &&& data.subrange(8, end) == record.packet
            &&& data.skip(end) == rest
        }),
{
    let data = record_bytes(record) + rest;
    let n = record.packet.len() as int;
    let len = word_bytes(n);
    let range = word_bytes(record.final_range as int);
    assert(data == len + range + record.packet + rest);
    assert(data.take(4) =~= len);
    assert(data.skip(4).take(4) =~= range);
    lemma_word_round_trip(n, data);
    lemma_word_round_trip(record.final_range as int, data.skip(4));
    assert(data.subrange(8, 8 + n) =~= record.packet);
    assert(data.skip(8 + n) =~= rest);
}

/// The records that were written are read back.
pub proof fn law_records_round_trip(records: Seq<RecordContents>)
    requires
        forall|i: int| 0 <= i < records.len() ==> (#[trigger] records[i]).packet.len() <= u32::MAX,
    ensures
        records_in(file_bytes(records)) == Some(records),
    decreases records.len(),
{
    if records.len() > 0 {
        let first = records[0];
        let rest = records.skip(1);
        assert forall|i: int| 0 <= i < rest.len() implies (#[trigger] rest[i]).packet.len()
            <= u32::MAX by {
            assert(rest[i] == records[i + 1]);
        }
        law_records_round_trip(rest);
        lemma_first_record(first, file_bytes(rest));
        assert(seq![first] + rest =~= records);
    } else {
        assert(records =~= seq![]);
    }
}

/// Words have their most significant byte first: they are ordered like their
/// bytes, and the last byte counts ones.
pub proof fn law_words_are_big_endian(a: Seq<u8>, b: Seq<u8>, k: int)
    requires
        a.len() == 4,
        b.len() == 4,
        0 <= k < 4,
        forall|i: int| 0 <= i < k ==> a[i] == b[i],
        a[k] < b[k],
    ensures
        word_at(a) < word_at(b),
        k == 3 ==> word_at(b) - word_at(a) == b[3] - a[3],
{
    assert(k == 0 || k == 1 || k == 2 || k == 3);
}

/// A record begins with the length of the packet, and then has the final range
/// and the packet.
pub proof fn law_record_layout(record: RecordContents, rest: Seq<u8>)
    requires
        record.packet.len() <= u32::MAX,
    ensures
        ({
            let data = record_bytes(record) + rest;
            &&& word_at(data) == record.packet.len()
            &&& word_at(data.skip(4)) == record.final_range
            &&& data.skip(8) == record.packet + rest
        }),
{
    lemma_first_record(record, rest);
    let data = record_bytes(record) + rest;
    assert(data.skip(8) =~= record.packet + rest);
}

} // verus!
