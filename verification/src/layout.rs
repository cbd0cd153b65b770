//! How the chunks of a file are laid out, field by field.

use crate::bytes::{le4, le8, lemma_le4, lemma_le8, u16_le, u32_le, u64_le};
use crate::readback::{
    a_written_text_reads_back, lemma_id_of, lemma_kinds, lemma_last_about_joined,
    lemma_padded_text, plain,
};
use crate::wav::{
    bext_of, capped, cue_of, cue_points_of, decoded, first_index, first_of_its_id, fmt_of,
    last_about, lemma_first_index, mark_text_of, marker_of, nul_at, packed, point_bytes, point_of,
    text_of, zeros, Format, MarkerView, SampleKind, DATA, LABL, LTXT, NOTE,
};
use vstd::prelude::*;
use vstd::utf8::{encode_utf8, valid_utf8};

verus! {

/// A number of two bytes, the lowest first.
pub open spec fn le2(n: u16) -> Seq<u8> {
    seq![(n % 0x100) as u8, (n / 0x100) as u8]
}

/// The fields that every `fmt ` chunk starts with.
pub struct FormatFields {
    pub tag: u16,
    pub channels: u16,
    pub rate: u32,
    pub byte_rate: u32,
    pub block: u16,
    pub bits: u16,
}

/// What a longer `fmt ` chunk holds besides.
pub struct FormatExtension {
    pub size: u16,
    pub valid_bits: u16,
    pub mask: u32,
    pub tag: u16,
}

impl FormatFields {
    pub open spec fn bytes(self) -> Seq<u8> {
        le2(self.tag) + le2(self.channels) + le4(self.rate) + le4(self.byte_rate) + le2(self.block)
            + le2(self.bits)
    }
}

impl FormatExtension {
    pub open spec fn bytes(self) -> Seq<u8> {
        le2(self.size) + le2(self.valid_bits) + le4(self.mask) + le2(self.tag)
    }
}

proof fn lemma_fields_are_read(f: FormatFields, rest: Seq<u8>)
    ensures
        ({
            let b = f.bytes() + rest;
            &&& b.len() == 16 + rest.len()
            &&& u16_le(b, 0) == f.tag
            &&& u16_le(b, 2) == f.channels
            &&& u32_le(b, 4) == f.rate
            &&& u16_le(b, 14) == f.bits
        }),
{
    let b = f.bytes() + rest;
    lemma_le4(f.rate);
    let r = le4(f.rate);
    assert(b[4] == r[0] && b[5] == r[1] && b[6] == r[2] && b[7] == r[3]);
    assert(b[0] == le2(f.tag)[0] && b[1] == le2(f.tag)[1]);
    assert(b[2] == le2(f.channels)[0] && b[3] == le2(f.channels)[1]);
    assert(b[14] == le2(f.bits)[0] && b[15] == le2(f.bits)[1]);
}

/// A plain `fmt ` body reads as the channels, the rate and the kind of sample
/// in its fields, whatever stands in the others and behind them: whole numbers
/// of one to four bytes, or floating point of four or eight.
pub proof fn a_plain_format_reads_as_its_fields(f: FormatFields, rest: Seq<u8>)
    requires
        f.tag != 0xFFFE,
    ensures
        ({
            let whole = f.tag == 1 && (f.bits == 8 || f.bits == 16 || f.bits == 24 || f.bits == 32);
            let float = f.tag == 3 && (f.bits == 32 || f.bits == 64);
            &&& fmt_of(f.bytes() + rest) is Ok <==> (whole || float) && f.channels > 0 && f.rate > 0
            &&& fmt_of(f.bytes() + rest) matches Ok(format) ==> {
                &&& format.channels == f.channels
                &&& format.sample_rate == f.rate
                &&& 8 * format.kind.width() == f.bits
                &&& float <==> format.kind == SampleKind::F32 || format.kind == SampleKind::F64
            }
        }),
        fmt_of(f.bytes() + rest) == fmt_of(
            (FormatFields { byte_rate: 0, block: 0, ..f }).bytes(),
        ),
{
    lemma_fields_are_read(f, rest);
    let g = FormatFields { byte_rate: 0, block: 0, ..f };
    lemma_fields_are_read(g, Seq::empty());
    assert(g.bytes() + Seq::<u8>::empty() =~= g.bytes());
}

/// An extended `fmt ` body reads exactly as the plain one with the tag that
/// its sub-format begins with, whatever its channel mask and valid bits are.
pub proof fn an_extended_format_reads_as_the_plain_one(
    f: FormatFields,
    x: FormatExtension,
    rest: Seq<u8>,
)
    requires
        f.tag == 0xFFFE,
        x.tag != 0xFFFE,
    ensures
        fmt_of(f.bytes() + x.bytes() + rest) == fmt_of((FormatFields { tag: x.tag, ..f }).bytes()),
{
    let b = f.bytes() + x.bytes() + rest;
    assert(b =~= f.bytes() + (x.bytes() + rest));
    lemma_fields_are_read(f, x.bytes() + rest);
    lemma_le4(x.mask);
    assert(b[24] == le2(x.tag)[0] && b[25] == le2(x.tag)[1]);
    assert(u16_le(b, 24) == x.tag);
    let g = FormatFields { tag: x.tag, ..f };
    lemma_fields_are_read(g, Seq::empty());
    assert(g.bytes() + Seq::<u8>::empty() =~= g.bytes());
}

/// A `fmt ` body too short for its fields, or for the extension that its tag
/// announces, is told to be cut off, and no other is.
pub proof fn a_cut_format_is_told(b: Seq<u8>)
    ensures
        b.len() < 16 ==> fmt_of(b) == Err::<Format, Seq<char>>("WAV fmt chunk is truncated"@),
        16 <= b.len() < 26 && b[0] == 0xFE && b[1] == 0xFF ==> fmt_of(b) == Err::<
            Format,
            Seq<char>,
        >("WAV fmt chunk is truncated"@),
{
}

/// A Broadcast WAV chunk reads as its fields, each in its own place and padded
/// with NULs: the description in 256 bytes, the originator and its reference
/// in 32 each, the date in ten, the time in eight, the samples since midnight
/// in eight, and the coding history behind all that is fixed.
pub proof fn a_broadcast_chunk_reads_as_its_fields(
    texts: Seq<Seq<char>>,
    samples: u64,
    fixed: Seq<u8>,
    history: Seq<char>,
    pad: nat,
)
    requires
        texts.len() == 5,
        forall|i: int| 0 <= i < 5 ==> plain(#[trigger] texts[i]),
        plain(history),
        encode_utf8(texts[0]).len() <= 256,
        encode_utf8(texts[1]).len() <= 32,
        encode_utf8(texts[2]).len() <= 32,
        encode_utf8(texts[3]).len() <= 10,
        encode_utf8(texts[4]).len() <= 8,
        fixed.len() == 256,
    ensures
        ({
            let b = padded_text(texts[0], 256) + padded_text(texts[1], 32) + padded_text(
                texts[2],
                32,
            ) + padded_text(texts[3], 10) + padded_text(texts[4], 8) + le8(samples) + fixed
                + encode_utf8(history) + zeros(pad);
            bext_of(b) matches Some(read) && read.description == texts[0] && read.originator
                == texts[1] && read.originator_reference == texts[2] && read.origination_date
                == texts[3] && read.origination_time == texts[4] && read.time_reference == samples
                && read.coding_history == history && read.raw == b
        }),
{
    let (t0, t1, t2, t3, t4) = (
        padded_text(texts[0], 256),
        padded_text(texts[1], 32),
        padded_text(texts[2], 32),
        padded_text(texts[3], 10),
        padded_text(texts[4], 8),
    );
    let h = encode_utf8(history) + zeros(pad);
    let b = t0 + t1 + t2 + t3 + t4 + le8(samples) + fixed + encode_utf8(history) + zeros(pad);
    lemma_le8(samples);
    lemma_padded_text(texts[0], (256 - encode_utf8(texts[0]).len()) as nat);
    lemma_padded_text(texts[1], (32 - encode_utf8(texts[1]).len()) as nat);
    lemma_padded_text(texts[2], (32 - encode_utf8(texts[2]).len()) as nat);
    lemma_padded_text(texts[3], (10 - encode_utf8(texts[3]).len()) as nat);
    lemma_padded_text(texts[4], (8 - encode_utf8(texts[4]).len()) as nat);
    lemma_padded_text(history, pad);
    assert(b.subrange(0, 256) =~= t0);
    assert(b.subrange(256, 288) =~= t1);
    assert(b.subrange(288, 320) =~= t2);
    assert(b.subrange(320, 330) =~= t3);
    assert(b.subrange(330, 338) =~= t4);
    assert(b.subrange(338, 346) =~= le8(samples));
    let n = b.subrange(338, 346);
    assert(n[0] == b[338] && n[1] == b[339] && n[2] == b[340] && n[3] == b[341] && n[4] == b[342]
        && n[5] == b[343] && n[6] == b[344] && n[7] == b[345]);
    assert(u64_le(b, 338) == u64_le(n, 0));
    assert(b.skip(602) =~= h);
}

/// A text as a field of so many bytes holds it.
pub open spec fn padded_text(s: Seq<char>, room: nat) -> Seq<u8> {
    encode_utf8(s) + zeros((room - encode_utf8(s).len()) as nat)
}

/// A point in a `cue ` chunk.
pub struct CuePoint {
    pub id: u32,
    pub position: u32,
    pub chunk: Seq<u8>,
    pub chunk_start: u32,
    pub block_start: u32,
    pub offset: u32,
}

impl CuePoint {
    pub open spec fn bytes(self) -> Seq<u8> {
        le4(self.id) + le4(self.position) + self.chunk + le4(self.chunk_start) + le4(
            self.block_start,
        ) + le4(self.offset)
    }
}

/// Each point of a `cue ` chunk reads as its id and the sample it is at: its
/// offset, or its position in the order of play where it has no offset. There
/// are as many as the chunk says, or as it has room for.
pub proof fn a_cue_chunk_reads_as_its_points(
    count: u32,
    before: Seq<u8>,
    p: CuePoint,
    after: Seq<u8>,
    i: int,
)
    requires
        p.chunk.len() == 4,
        0 <= i < count,
        before.len() == 24 * i,
    ensures
        ({
            let b = le4(count) + before + p.bytes() + after;
            &&& cue_of(b).len() == if count <= (b.len() - 4) / 24 {
                count as int
            } else {
                (b.len() - 4) / 24
            }
            &&& i < cue_of(b).len()
            &&& cue_of(b)[i] == (
                p.id,
                if p.offset == 0 {
                    p.position
                } else {
                    p.offset
                },
            )
        }),
{
    let b = le4(count) + before + p.bytes() + after;
    lemma_le4(count);
    lemma_le4(p.id);
    lemma_le4(p.position);
    lemma_le4(p.chunk_start);
    lemma_le4(p.block_start);
    lemma_le4(p.offset);
    let c = le4(count);
    assert(b[0] == c[0] && b[1] == c[1] && b[2] == c[2] && b[3] == c[3]);
    assert(u32_le(b, 0) == count);
    assert(b.len() >= 4 + 24 * i + 24);
    let point = b.subrange(4 + 24 * i, 28 + 24 * i);
    assert(point =~= p.bytes());
    let (x, y, z) = (le4(p.id), le4(p.position), le4(p.offset));
    assert(point[0] == x[0] && point[1] == x[1] && point[2] == x[2] && point[3] == x[3]);
    assert(point[4] == y[0] && point[5] == y[1] && point[6] == y[2] && point[7] == y[3]);
    assert(point[20] == z[0] && point[21] == z[1] && point[22] == z[2] && point[23] == z[3]);
    assert(cue_points_of(b)[i] == point);
}

/// Whether nothing in a list is of a kind and about a point.
pub open spec fn says_nothing(
    entries: Seq<(Seq<u8>, Seq<u8>)>,
    kind: Seq<u8>,
    id: u32,
) -> bool {
    forall|i: int|
        0 <= i < entries.len() ==> !((#[trigger] entries[i]).0 == kind && entries[i].1.len() >= 4
            && u32_le(entries[i].1, 0) == id)
}

proof fn lemma_nothing_said(
    entries: Seq<(Seq<u8>, Seq<u8>)>,
    kind: Seq<u8>,
    id: u32,
    room: int,
)
    requires
        says_nothing(entries, kind, id),
        room >= 4,
    ensures
        last_about(entries, kind, id, room) is None,
    decreases entries.len(),
{
    if entries.len() > 0 {
        let rest = entries.drop_last();
        assert forall|i: int| 0 <= i < rest.len() implies !((#[trigger] rest[i]).0 == kind
            && rest[i].1.len() >= 4 && u32_le(rest[i].1, 0) == id) by {
            assert(rest[i] == entries[i]);
        }
        assert(entries.last() == entries[entries.len() - 1]);
        lemma_nothing_said(rest, kind, id, room);
    }
}

proof fn lemma_said_last(
    before: Seq<(Seq<u8>, Seq<u8>)>,
    e: (Seq<u8>, Seq<u8>),
    after: Seq<(Seq<u8>, Seq<u8>)>,
    kind: Seq<u8>,
    id: u32,
    room: int,
)
    requires
        room >= 4,
        e.0 == kind,
        e.1.len() >= room,
        u32_le(e.1, 0) == id,
        says_nothing(after, kind, id),
    ensures
        last_about(before + seq![e] + after, kind, id, room) == Some(e.1),
{
    lemma_nothing_said(after, kind, id, room);
    lemma_last_about_joined(before + seq![e], after, kind, id, room);
    assert((before + seq![e]).last() == e);
}

/// A mark has the id and the frame of its point, and the label and the note
/// last said of it: those that follow the id in a `labl` and a `note`.
pub proof fn a_mark_has_the_texts_said_of_it(
    points: Seq<(u32, u32)>,
    i: int,
    before: Seq<(Seq<u8>, Seq<u8>)>,
    text: Seq<char>,
    after: Seq<(Seq<u8>, Seq<u8>)>,
)
    requires
        0 <= i < points.len(),
        forall|j: int| 0 <= j < i ==> (#[trigger] points[j]).0 != points[i].0,
        plain(text),
        text.len() > 0,
    ensures
        ({
            let id = points[i].0;
            let body = le4(id) + encode_utf8(text) + seq![0u8];
            &&& says_nothing(after, LABL@, id) ==> marker_of(
                points,
                before + seq![(LABL@, body)] + after,
                i,
            ).label == text
            &&& says_nothing(after, NOTE@, id) ==> marker_of(
                points,
                before + seq![(NOTE@, body)] + after,
                i,
            ).note == text
            &&& forall|entries: Seq<(Seq<u8>, Seq<u8>)>| #[trigger]
                marker_of(points, entries, i).id == id && marker_of(points, entries, i).frame
                    == points[i].1
        }),
{
    let id = points[i].0;
    let told = encode_utf8(text) + seq![0u8];
    let body = le4(id) + told;
    assert(le4(id) + encode_utf8(text) + seq![0u8] =~= body);
    lemma_id_of(id, told);
    lemma_kinds();
    a_written_text_reads_back(text);
    assert(mark_text_of(LABL@, body) == text);
    assert(mark_text_of(NOTE@, body) == text);
    if says_nothing(after, LABL@, id) {
        lemma_said_last(before, (LABL@, body), after, LABL@, id, 4);
    }
    if says_nothing(after, NOTE@, id) {
        lemma_said_last(before, (NOTE@, body), after, NOTE@, id, 4);
    }
}

/// A mark is as long as is last said of it, in a `ltxt`; the text behind its
/// twenty bytes is the mark's label where it has no other. A mark of which
/// nothing is said is a place with no name.
pub proof fn a_mark_is_as_long_as_is_said(
    points: Seq<(u32, u32)>,
    i: int,
    before: Seq<(Seq<u8>, Seq<u8>)>,
    length: u32,
    fixed: Seq<u8>,
    text: Seq<char>,
    after: Seq<(Seq<u8>, Seq<u8>)>,
)
    requires
        0 <= i < points.len(),
        forall|j: int| 0 <= j < i ==> (#[trigger] points[j]).0 != points[i].0,
        plain(text),
        fixed.len() == 12,
        says_nothing(after, LTXT@, points[i].0),
    ensures
        ({
            let id = points[i].0;
            let body = le4(id) + le4(length) + fixed + encode_utf8(text) + seq![0u8];
            let entries = before + seq![(LTXT@, body)] + after;
            &&& marker_of(points, entries, i).length == length
            &&& says_nothing(entries, LABL@, id) ==> marker_of(points, entries, i).label == text
        }),
        says_nothing(after, LABL@, points[i].0) && says_nothing(after, NOTE@, points[i].0) ==> {
            let m = marker_of(points, after, i);
            m.length == 0 && m.label.len() == 0 && m.note.len() == 0
        },
{
    let id = points[i].0;
    let told = encode_utf8(text) + seq![0u8];
    let rest = le4(length) + fixed + told;
    let body = le4(id) + rest;
    assert(le4(id) + le4(length) + fixed + encode_utf8(text) + seq![0u8] =~= body);
    lemma_id_of(id, rest);
    lemma_le4(length);
    lemma_kinds();
    let l = le4(length);
    assert(body[4] == l[0] && body[5] == l[1] && body[6] == l[2] && body[7] == l[3]);
    assert(body.skip(20) =~= told);
    a_written_text_reads_back(text);
    let entries = before + seq![(LTXT@, body)] + after;
    lemma_said_last(before, (LTXT@, body), after, LTXT@, id, 8);
    if says_nothing(entries, LABL@, id) {
        lemma_nothing_said(entries, LABL@, id, 4);
    }
    lemma_nothing_said(after, LTXT@, id, 8);
    if says_nothing(after, LABL@, id) && says_nothing(after, NOTE@, id) {
        lemma_nothing_said(after, LABL@, id, 4);
        lemma_nothing_said(after, NOTE@, id, 4);
    }
}

/// A second mark with an id that another has already is a bare place: what is
/// said of the id is said of the first.
pub proof fn a_repeated_id_names_only_the_first(
    points: Seq<(u32, u32)>,
    entries: Seq<(Seq<u8>, Seq<u8>)>,
    i: int,
    j: int,
)
    requires
        0 <= j < i < points.len(),
        points[j].0 == points[i].0,
    ensures
        marker_of(points, entries, i) == (MarkerView {
            id: points[i].0,
            frame: points[i].1 as usize,
            length: 0,
            label: Seq::empty(),
            note: Seq::empty(),
        }),
{
    assert(!first_of_its_id(points, i));
}

/// Bytes that are not UTF-8 are read one by one, as characters of Western
/// Europe: those of plain ASCII, and those from the no-break space on, stand
/// for the character of the same number.
pub proof fn other_bytes_are_read_one_by_one(b: Seq<u8>, i: int)
    requires
        !valid_utf8(b),
        0 <= i < b.len(),
    ensures
        decoded(b).len() == b.len(),
        !(0x80 <= b[i] <= 0x9F) ==> decoded(b)[i] as u32 == b[i],
{
}

/// A point that is written anew says its frame as its position and as its
/// offset into the sample data; one that stood in the file is written as it
/// stood.
pub proof fn a_new_point_says_its_frame(m: MarkerView, points: Seq<Seq<u8>>, k: int)
    requires
        m.frame <= u32::MAX,
    ensures
        points.len() == 0 ==> point_bytes(m, points) == (CuePoint {
            id: m.id,
            position: m.frame as u32,
            chunk: DATA@,
            chunk_start: 0,
            block_start: 0,
            offset: m.frame as u32,
        }).bytes(),
        0 <= k < points.len() && point_of(points[k]) == (m.id, m.frame as u32) ==> points.contains(
            point_bytes(m, points),
        ) && point_of(point_bytes(m, points)) == (m.id, m.frame as u32),
{
    let p = |p: Seq<u8>| point_of(p) == (m.id, capped(m.frame));
    lemma_first_index(points, p, 0);
    let at = first_index(points, p, 0);
    if points.len() == 0 {
        let zero = le4(0);
        assert(zero =~= seq![0u8, 0u8, 0u8, 0u8]);
        assert(zeros(8) =~= zero + zero);
        assert(point_bytes(m, points) =~= (CuePoint {
            id: m.id,
            position: m.frame as u32,
            chunk: DATA@,
            chunk_start: 0,
            block_start: 0,
            offset: m.frame as u32,
        }).bytes());
    }
    if 0 <= k < points.len() && point_of(points[k]) == (m.id, m.frame as u32) {
        assert(p(points[k]));
        if at >= points.len() {
            assert(!p(points[k]));
        }
        assert(p(points[at]));
        assert(point_bytes(m, points) == points[at]);
    }
}

/// A subchunk takes its id, its length and its body, and a byte more where that
/// makes it even.
pub proof fn a_subchunk_takes_even_bytes(id: Seq<u8>, body: Seq<u8>)
    requires
        id.len() == 4,
        body.len() <= u32::MAX,
    ensures
        ({
            let b = packed((id, body));
            &&& b.len() % 2 == 0
            &&& b.len() == 8 + body.len() + body.len() % 2
            &&& b.take(4) == id
            &&& u32_le(b, 4) == body.len()
            &&& b.subrange(8, (8 + body.len()) as int) == body
            &&& body.len() % 2 == 1 ==> b.last() == 0
        }),
{
    let b = packed((id, body));
    let n = body.len() as u32;
    lemma_le4(n);
    let l = le4(n);
    assert(b.take(4) =~= id);
    assert(b[4] == l[0] && b[5] == l[1] && b[6] == l[2] && b[7] == l[3]);
    assert(b.subrange(8, (8 + body.len()) as int) =~= body);
}

/// What follows the NUL that ends a text is not read.
pub proof fn a_text_ends_at_its_nul(s: Seq<char>, rest: Seq<u8>)
    requires
        plain(s),
    ensures
        text_of(encode_utf8(s) + seq![0u8] + rest) == s,
        text_of(encode_utf8(s)) == s,
{
    let b = encode_utf8(s) + seq![0u8];
    let n = encode_utf8(s).len() as int;
    a_written_text_reads_back(s);
    lemma_padded_text(s, 0);
    assert(zeros(0) =~= Seq::<u8>::empty());
    assert(encode_utf8(s) + zeros(0) =~= encode_utf8(s));
    assert((b + rest).take(b.len() as int) =~= b);
    lemma_nul_found(b, b + rest, 0);
    lemma_nul_within(b, 0);
    assert(b[n] == 0);
    assert((b + rest).take(nul_at(b, 0)) =~= b.take(nul_at(b, 0)));
}

proof fn lemma_nul_within(b: Seq<u8>, i: int)
    requires
        0 <= i <= b.len(),
    ensures
        i <= nul_at(b, i) <= b.len(),
    decreases b.len() - i,
{
    if i < b.len() && b[i] != 0 {
        lemma_nul_within(b, i + 1);
    }
}

proof fn lemma_nul_found(a: Seq<u8>, b: Seq<u8>, i: int)
    requires
        0 <= i < a.len() <= b.len(),
        a.last() == 0,
        b.take(a.len() as int) == a,
    ensures
        nul_at(a, i) == nul_at(b, i),
    decreases a.len() - i,
{
    assert(b[i] == b.take(a.len() as int)[i]);
    if a[i] != 0 {
        lemma_nul_found(a, b, i + 1);
    }
}

} // verus!
