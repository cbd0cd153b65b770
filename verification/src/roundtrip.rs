//! A whole file that was saved, read back: what a file says is what its
//! chunks say one after another, so a new file whose chunks were laid out as
//! meant reads as meant.

use crate::bytes::{le4, le8, lemma_le4, lemma_le8, u32_le, u64_le};
use crate::document::{edited_fields_read_as_set, fields_of, unquoted, written_for};
use crate::edit::{
    bext_chunk_of, changes_of, clock_of, crlf_of, document_text, edits_of, fields_held, inside,
    kept_info, leaves_of, leaves_upto, lf_of, numbered_of, shown_info, spliced, start_of, trimmed,
    EditsView,
};
use crate::readback::{
    bext_said, field_texts, lemma_all_points, lemma_named_add, lemma_text_without_nul, named_in_four, plain,
    untouched_bext_fields_read_as_before, written_bext_reads_back, written_info_reads_back,
    written_line_ends_show_as_before, written_marks_read_back,
};
use crate::save::{
    after_type, all_held, audio, body_of, check_of, chunks_laid, chunks_within, copied, header_len,
    header_of, is_wide, lemma_body_within, list_type_of, magic_of, pieces_len, pieces_within,
    plan_of, rendered, saved_of, sources_of, stored_marks_of, ChangesView, HeldView, LayoutView,
    PieceView, Sources,
};
use crate::text::{lemma_trimmed, trim_of, trimming_twice_is_trimming_once};
use crate::wav::{
    adtl_entries, after_subchunk, all_entries, before, bext_of, chunks_lie_in_the_file, container_of,
    cue_count, cue_of, cue_points_of, decoded, entry_index, fmt_of, info_body_of, info_entries,
    info_of, least, lemma_fed_stays, mark_bodies_of, mark_entries, markers_of, named_in_region,
    nul_at, other_entries, packed, packed_all, real_size, region_entry, scan_start, scanned,
    sort_marks, subchunk_end, subchunks_of, text_entry, text_of, wav_of, zeros, BextView, ChunkView,
    Fault, Format, MarkerView, Phase, ScannerView, StoredMarksView, WavView, ADTL, BEXT, BW64, CUE, DATA, DS64, FMT,
    INFO, IXML, LABL, LIST, LTXT, METADATA_MAX, NOTE, RF64, RIFF, WAVE,
};
use crate::xml::{document_of, Node};
use vstd::prelude::*;
use vstd::utf8::encode_utf8;

verus! {

/// What the chunks of a file say, but for the sample data.
#[verifier::ext_equal]
pub struct Content {
    pub format: Option<Format>,
    pub bext: Option<BextView>,
    pub ixml: Option<Seq<char>>,
    pub info: Seq<(Seq<u8>, Seq<char>)>,
    pub points: Option<Seq<(u32, u32)>>,
    pub adtl: Seq<(Seq<u8>, Seq<u8>)>,
}

/// What no chunks at all say.
pub open spec fn silent() -> Content {
    Content {
        format: None,
        bext: None,
        ixml: None,
        info: Seq::empty(),
        points: None,
        adtl: Seq::empty(),
    }
}

/// As much of a chunk's body as is read.
pub open spec fn front(body: Seq<u8>) -> Seq<u8> {
    body.take(least(body.len() as int, METADATA_MAX as int))
}

impl Content {
    /// With what one more chunk says, where it can be read.
    #[verifier::opaque]
    pub open spec fn with(self, id: Seq<u8>, body: Seq<u8>) -> Option<Content> {
        let b = front(body);
        if id == FMT@ {
            match fmt_of(b) {
                Ok(f) => Some(Content { format: Some(f), ..self }),
                Err(_) => None,
            }
        } else if id == BEXT@ && self.bext is None {
            Some(Content { bext: bext_of(b), ..self })
        } else if id == IXML@ && self.ixml is None {
            Some(Content { ixml: Some(text_of(b)), ..self })
        } else if id == CUE@ {
            Some(
                Content {
                    points: Some(
                        match self.points {
                            Some(p) => p + cue_of(b),
                            None => cue_of(b),
                        },
                    ),
                    ..self
                },
            )
        } else if id == LIST@ && b.len() >= 4 && b.take(4) == INFO@ {
            Some(Content { info: self.info + info_of(b.skip(4)), ..self })
        } else if id == LIST@ && b.len() >= 4 && b.take(4) == ADTL@ {
            Some(Content { adtl: self.adtl + subchunks_of(b.skip(4)), ..self })
        } else {
            Some(self)
        }
    }
}

/// What chunks say, given each one's id and body, where all can be read.
pub open spec fn content_of(chunks: Seq<(Seq<u8>, Seq<u8>)>) -> Option<Content>
    decreases chunks.len(),
{
    if chunks.len() == 0 {
        Some(silent())
    } else {
        match content_of(chunks.drop_last()) {
            Some(c) => c.with(chunks.last().0, chunks.last().1),
            None => None,
        }
    }
}

/// The chunks of the file `f`, each with its id and body.
pub open spec fn bodies(f: Seq<u8>, chunks: Seq<ChunkView>) -> Seq<(Seq<u8>, Seq<u8>)> {
    chunks.map_values(|c: ChunkView| (c.id, f.subrange(c.start as int, c.end as int)))
}

/// Chunks but for those that hold sizes alone.
pub open spec fn but_sizes(chunks: Seq<(Seq<u8>, Seq<u8>)>) -> Seq<(Seq<u8>, Seq<u8>)>
    decreases chunks.len(),
{
    if chunks.len() == 0 {
        Seq::empty()
    } else if chunks.last().0 == DS64@ {
        but_sizes(chunks.drop_last())
    } else {
        but_sizes(chunks.drop_last()).push(chunks.last())
    }
}

/// The last of the chunks that holds sample data.
pub open spec fn last_data(chunks: Seq<ChunkView>) -> Option<(u64, u64)>
    decreases chunks.len(),
{
    if chunks.len() == 0 {
        None
    } else if chunks.last().id == DATA@ {
        Some((chunks.last().start, chunks.last().end))
    } else {
        last_data(chunks.drop_last())
    }
}

spec fn content(v: ScannerView) -> Content {
    Content {
        format: v.format,
        bext: v.bext,
        ixml: v.ixml,
        info: v.info,
        points: v.points,
        adtl: v.adtl,
    }
}

/// Whether a chunk has an id of four bytes and, unless it holds sample data,
/// a size that four bytes hold.
pub open spec fn in_bounds(c: ChunkView) -> bool {
    c.id.len() == 4 && (c.id != DATA@ ==> c.end - c.start <= u32::MAX)
}

/// Whether what a scan has taken in is what the chunks so far say.
spec fn in_step(f: Seq<u8>, v: ScannerView) -> bool {
    let read = if v.phase == Phase::Body {
        v.chunks.drop_last()
    } else {
        v.chunks
    };
    &&& content_of(bodies(f, read)) == Some(content(v))
    &&& v.data == last_data(v.chunks)
    &&& forall|i: int| 0 <= i < v.chunks.len() ==> in_bounds(#[trigger] v.chunks[i])
    &&& v.phase == Phase::Body ==> v.reads(v.chunks.last().id)
}

proof fn lemma_ids()
    ensures
        DATA@ != DS64@,
        DATA@ != FMT@ && DATA@ != BEXT@ && DATA@ != IXML@ && DATA@ != CUE@ && DATA@ != LIST@,
        DS64@ != FMT@ && DS64@ != BEXT@ && DS64@ != IXML@ && DS64@ != CUE@ && DS64@ != LIST@,
        FMT@ != BEXT@ && FMT@ != IXML@ && FMT@ != CUE@ && FMT@ != LIST@,
        BEXT@ != IXML@ && BEXT@ != CUE@ && BEXT@ != LIST@,
        IXML@ != CUE@ && IXML@ != LIST@ && CUE@ != LIST@,
        INFO@ != ADTL@,
{
    assert(DATA@[0] == 0x64 && DATA@[1] == 0x61);
    assert(DS64@[0] == 0x64 && DS64@[1] == 0x73);
    assert(FMT@[0] == 0x66 && BEXT@[0] == 0x62 && IXML@[0] == 0x69);
    assert(CUE@[0] == 0x63 && LIST@[0] == 0x4C);
    assert(INFO@[0] == 0x49 && ADTL@[0] == 0x61);
}

/// What one more chunk says, once its header is read.
proof fn lemma_header_in_step(f: Seq<u8>, v: ScannerView, b: Seq<u8>)
    requires
        v.wf(),
        v.len == f.len(),
        v.phase == Phase::Header,
        in_step(f, v),
        b.len() <= v.wants().1,
    ensures
        in_step(f, v.header(b)),
        v.header(b).container == v.container,
{
    reveal(Content::with);
    reveal(ScannerView::header);
    lemma_ids();
    if b.len() >= 8 {
        let id = b.take(4);
        let next = v.header(b);
        let size = real_size(id, u32_le(b, 4), v.data_size_64, v.len as int, v.pos as int);
        assert(next.chunks.drop_last() =~= v.chunks);
        assert(next.chunks.last().id == id);
        assert(bodies(f, next.chunks).drop_last() =~= bodies(f, v.chunks));
        assert forall|i: int| 0 <= i < next.chunks.len() implies in_bounds(
            #[trigger] next.chunks[i],
        ) by {
            if i < v.chunks.len() {
                assert(next.chunks[i] == v.chunks[i]);
            } else {
                assert(id != DATA@ ==> size <= u32::MAX);
            }
        }
        assert(content(next) =~= content(v));
        assert(next.reads(id) == v.reads(id));
        if !v.reads(id) {
            assert(content_of(bodies(f, next.chunks)) == Some(content(next)));
        }
    }
}

/// What one more chunk says, once its body is read.
proof fn lemma_body_in_step(f: Seq<u8>, v: ScannerView, b: Seq<u8>)
    requires
        v.wf(),
        v.len == f.len(),
        v.phase == Phase::Body,
        in_step(f, v),
        b == f.subrange(v.wants().0, v.wants().0 + v.wants().1),
    ensures
        v.body(b) matches Ok(next) ==> in_step(f, next) && next.container == v.container,
{
    reveal(Content::with);
    reveal(ScannerView::body);
    lemma_ids();
    let c = v.chunks.last();
    let whole = f.subrange(c.start as int, c.end as int);
    assert(b =~= front(whole));
    assert(bodies(f, v.chunks).drop_last() =~= bodies(f, v.chunks.drop_last()));
    assert(bodies(f, v.chunks).last() == (c.id, whole));
    match v.body(b) {
        Ok(next) => {
            assert(content(v).with(c.id, whole) == Some(content(next)));
        },
        Err(_) => {},
    }
}

/// What a file says is what its chunks say.
proof fn lemma_scan_in_step(f: Seq<u8>, v: ScannerView)
    requires
        v.wf(),
        v.len == f.len(),
        v.phase != Phase::Head,
        in_step(f, v),
    ensures
        scanned(f, v) matches Ok(end) ==> in_step(f, end) && end.phase == Phase::Done
            && end.container == v.container,
    decreases v.len + 1 - v.pos, v.rank(),
{
    if v.phase != Phase::Done {
        let (at, count) = v.wants();
        let b = f.subrange(at, at + count);
        lemma_fed_stays(v, b);
        if v.phase == Phase::Header {
            lemma_header_in_step(f, v, b);
        } else {
            lemma_body_in_step(f, v, b);
        }
        match v.fed(b) {
            Ok(next) => {
                lemma_scan_in_step(f, next);
            },
            Err(_) => {},
        }
    }
}

/// A chunk to be written: its id, its body and the size that its header
/// says.
#[verifier::ext_equal]
pub struct Item {
    pub id: Seq<u8>,
    pub body: Seq<u8>,
    pub said: u32,
}

/// The bytes of a chunk that is written.
pub open spec fn item_bytes(i: Item) -> Seq<u8> {
    i.id + le4(i.said) + i.body + if i.body.len() % 2 == 1 {
        seq![0u8]
    } else {
        Seq::empty()
    }
}

/// The bytes of chunks that are written one behind another.
pub open spec fn laid(items: Seq<Item>) -> Seq<u8>
    decreases items.len(),
{
    if items.len() == 0 {
        Seq::empty()
    } else {
        laid(items.drop_last()) + item_bytes(items.last())
    }
}

pub open spec fn as_chunks(items: Seq<Item>) -> Seq<(Seq<u8>, Seq<u8>)> {
    items.map_values(|i: Item| (i.id, i.body))
}

/// Whether the header of the chunk at `i` says how long its body is, in a
/// file whose `ds64` chunk says `wide` of the sample data. Sample data of no
/// size goes on to the end of the file.
pub open spec fn says_its_size(items: Seq<Item>, i: int, wide: Option<u64>) -> bool {
    let x = items[i];
    &&& x.id.len() == 4
    &&& x.id != DS64@
    &&& if x.id == DATA@ && x.said == u32::MAX && wide is Some {
        x.body.len() == wide->0
    } else {
        x.said == x.body.len() && (x.id == DATA@ && x.said == 0 ==> i == items.len() - 1)
    }
}

/// The body of the last chunk that holds sample data.
pub open spec fn last_audio(chunks: Seq<(Seq<u8>, Seq<u8>)>) -> Option<Seq<u8>>
    decreases chunks.len(),
{
    if chunks.len() == 0 {
        None
    } else if chunks.last().0 == DATA@ {
        Some(chunks.last().1)
    } else {
        last_audio(chunks.drop_last())
    }
}

/// Whether `place` is where `body` stands in the file `g`.
spec fn stands_at(g: Seq<u8>, place: Option<(u64, u64)>, body: Option<Seq<u8>>) -> bool {
    match (place, body) {
        (Some((a, b)), Some(s)) => a <= b <= g.len() && g.subrange(a as int, b as int) == s,
        (None, None) => true,
        _ => false,
    }
}

proof fn lemma_laid_prefix(items: Seq<Item>, k: int)
    requires
        0 <= k <= items.len(),
    ensures
        laid(items.take(k)).len() <= laid(items).len(),
        laid(items).take(laid(items.take(k)).len() as int) == laid(items.take(k)),
    decreases items.len(),
{
    if k == items.len() {
        assert(items.take(k) =~= items);
        assert(laid(items).take(laid(items).len() as int) =~= laid(items));
    } else {
        let rest = items.drop_last();
        lemma_laid_prefix(rest, k);
        assert(rest.take(k) =~= items.take(k));
        let n = laid(items.take(k)).len() as int;
        assert(laid(items).take(n) =~= laid(rest).take(n));
    }
}

proof fn lemma_content_prefix(chunks: Seq<(Seq<u8>, Seq<u8>)>, k: int)
    requires
        0 <= k <= chunks.len(),
        content_of(chunks) is Some,
    ensures
        content_of(chunks.take(k)) is Some,
    decreases chunks.len(),
{
    if k == chunks.len() {
        assert(chunks.take(k) =~= chunks);
    } else {
        lemma_content_prefix(chunks.drop_last(), k);
        assert(chunks.drop_last().take(k) =~= chunks.take(k));
    }
}

/// A scan that is about to read the chunk at `k` of a file that was written.
spec fn at_chunk(g: Seq<u8>, from: int, items: Seq<Item>, k: int, v: ScannerView) -> bool {
    &&& v.wf()
    &&& v.len == g.len()
    &&& v.phase == Phase::Header
    &&& v.pos == from + laid(items.take(k)).len()
    &&& content_of(as_chunks(items.take(k))) == Some(content(v))
    &&& stands_at(g, v.data, last_audio(as_chunks(items.take(k))))
    &&& but_sizes(bodies(g, v.chunks)) == as_chunks(items.take(k))
}

/// Whether `g` is something of length `from` and behind it the chunks.
spec fn written(g: Seq<u8>, from: int, items: Seq<Item>, wide: Option<u64>) -> bool {
    &&& 0 <= from <= g.len() <= u64::MAX
    &&& g.skip(from) == laid(items)
    &&& forall|i: int| 0 <= i < items.len() ==> #[trigger] says_its_size(items, i, wide)
    &&& content_of(as_chunks(items)) is Some
}

/// The header and body of the chunk at `k`, where they stand in the file.
proof fn lemma_item_stands(g: Seq<u8>, from: int, items: Seq<Item>, k: int, wide: Option<u64>)
    requires
        written(g, from, items, wide),
        0 <= k < items.len(),
    ensures
        ({
            let at = from + laid(items.take(k)).len();
            let x = items[k];
            let end = at + 8 + x.body.len();
            &&& end + x.body.len() % 2 == from + laid(items.take(k + 1)).len() <= g.len()
            &&& g.subrange(at, at + 8) == x.id + le4(x.said)
            &&& g.subrange(at + 8, end) == x.body
        }),
{
    let x = items[k];
    let n = laid(items.take(k)).len() as int;
    let at = from + n;
    lemma_laid_prefix(items, k + 1);
    assert(items.take(k + 1).drop_last() =~= items.take(k));
    assert(items.take(k + 1).last() == x);
    let upto = laid(items.take(k + 1));
    assert(says_its_size(items, k, wide));
    assert(upto == laid(items.take(k)) + item_bytes(x));
    let all = laid(items);
    assert forall|j: int| 0 <= j < upto.len() implies g[from + j] == upto[j] by {
        assert(g.skip(from)[j] == g[from + j]);
        assert(all.take(upto.len() as int)[j] == all[j]);
    }
    let b = item_bytes(x);
    assert forall|j: int| 0 <= j < b.len() implies g[at + j] == b[j] by {
        assert(upto[n + j] == b[j]);
        assert(g[from + (n + j)] == upto[n + j]);
    }
    assert(g.subrange(at, at + 8) =~= x.id + le4(x.said)) by {
        assert forall|j: int| 0 <= j < 8 implies g.subrange(at, at + 8)[j] == (x.id + le4(
            x.said,
        ))[j] by {
            assert(g[at + j] == b[j]);
        }
    }
    assert(g.subrange(at + 8, at + 8 + x.body.len()) =~= x.body) by {
        assert forall|j: int| 0 <= j < x.body.len() implies g.subrange(
            at + 8,
            at + 8 + x.body.len(),
        )[j] == x.body[j] by {
            assert(g[at + (8 + j)] == b[8 + j]);
        }
    }
}

/// Reading the header of the chunk at `k`.
proof fn lemma_header_on(
    g: Seq<u8>,
    from: int,
    items: Seq<Item>,
    k: int,
    v: ScannerView,
) -> (read: ScannerView)
    requires
        0 <= k < items.len(),
        written(g, from, items, v.data_size_64),
        at_chunk(g, from, items, k, v),
    ensures
        scanned(g, v) == scanned(g, read),
        read.wf(),
        read.len == v.len,
        read.pos == from + laid(items.take(k + 1)).len(),
        read.chunks.len() > 0,
        read.chunks.drop_last() == v.chunks,
        read.chunks.last().id == items[k].id,
        read.chunks.last().start == v.pos + 8,
        read.chunks.last().end == v.pos + 8 + items[k].body.len(),
        read.phase == if v.reads(items[k].id) {
            Phase::Body
        } else {
            Phase::Header
        },
        content(read) == content(v),
        read.container == v.container,
        read.data_size_64 == v.data_size_64,
        read.data == if items[k].id == DATA@ {
            Some((read.chunks.last().start, read.chunks.last().end))
        } else {
            v.data
        },
{
    reveal(ScannerView::header);
    let x = items[k];
    lemma_item_stands(g, from, items, k, v.data_size_64);
    assert(says_its_size(items, k, v.data_size_64));
    let b = g.subrange(v.pos as int, v.pos + 8);
    assert(v.wants() == (v.pos as int, 8int));
    assert(b.take(4) =~= x.id);
    lemma_le4(x.said);
    assert(u32_le(b, 4) == x.said) by {
        assert(b[4] == le4(x.said)[0] && b[5] == le4(x.said)[1] && b[6] == le4(x.said)[2] && b[7]
            == le4(x.said)[3]);
    }
    if k == items.len() - 1 {
        assert(items.take(k + 1) =~= items);
        assert(g.skip(from).len() == g.len() - from);
    }
    let size = real_size(x.id, x.said as int, v.data_size_64, v.len as int, v.pos as int);
    assert(size == x.body.len());
    lemma_fed_stays(v, b);
    let read = v.header(b);
    assert(v.fed(b) == Ok::<ScannerView, Fault>(read));
    assert(content(read) =~= content(v));
    assert(read.chunks.drop_last() =~= v.chunks);
    read
}

/// Reading the body of the chunk whose header came last.
proof fn lemma_body_on(g: Seq<u8>, read: ScannerView, id: Seq<u8>, body: Seq<u8>) -> (next:
    ScannerView)
    requires
        read.wf(),
        read.len == g.len(),
        read.phase == Phase::Body,
        read.chunks.last().id == id,
        g.subrange(read.chunks.last().start as int, read.chunks.last().end as int) == body,
        read.reads(id),
        content(read).with(id, body) is Some,
        id != DS64@,
    ensures
        scanned(g, read) == scanned(g, next),
        next.wf(),
        next.len == read.len,
        next.pos == read.pos,
        next.phase == Phase::Header,
        Some(content(next)) == content(read).with(id, body),
        next.container == read.container,
        next.data_size_64 == read.data_size_64,
        next.data == read.data,
        next.chunks == read.chunks,
{
    reveal(Content::with);
    reveal(ScannerView::body);
    lemma_ids();
    let (at, count) = read.wants();
    let b = g.subrange(at, at + count);
    assert(b =~= front(body));
    lemma_fed_stays(read, b);
    let next = read.body(b)->Ok_0;
    assert(read.body(b) is Ok);
    assert(read.fed(b) == Ok::<ScannerView, Fault>(next));
    assert(content(next) =~= content(read).with(id, body)->0);
    next
}

/// A chunk whose body is not read says nothing.
proof fn lemma_unread(v: ScannerView, id: Seq<u8>, body: Seq<u8>)
    requires
        !v.reads(id),
    ensures
        content(v).with(id, body) == Some(content(v)),
{
    reveal(Content::with);
}

/// Reading the chunk at `k` takes a scan to the next.
proof fn lemma_one_chunk_on(
    g: Seq<u8>,
    from: int,
    items: Seq<Item>,
    k: int,
    v: ScannerView,
) -> (next: ScannerView)
    requires
        0 <= k < items.len(),
        written(g, from, items, v.data_size_64),
        at_chunk(g, from, items, k, v),
    ensures
        scanned(g, v) == scanned(g, next),
        at_chunk(g, from, items, k + 1, next),
        next.container == v.container,
        next.data_size_64 == v.data_size_64,
{
    let x = items[k];
    let read = lemma_header_on(g, from, items, k, v);
    lemma_item_stands(g, from, items, k, v.data_size_64);
    assert(says_its_size(items, k, v.data_size_64));
    let before = as_chunks(items.take(k));
    let after = as_chunks(items.take(k + 1));
    assert(after.drop_last() =~= before);
    assert(after.last() == (x.id, x.body));
    lemma_content_prefix(as_chunks(items), k + 1);
    assert(as_chunks(items).take(k + 1) =~= after);
    assert(bodies(g, read.chunks).drop_last() =~= bodies(g, v.chunks));
    assert(bodies(g, read.chunks).last() == (x.id, x.body));
    assert(after =~= before.push((x.id, x.body)));
    if v.reads(x.id) {
        assert(read.reads(x.id));
        lemma_body_on(g, read, x.id, x.body)
    } else {
        lemma_unread(v, x.id, x.body);
        read
    }
}

/// A file that was written is read to its end, and says what its chunks say.
proof fn lemma_written_scans(
    g: Seq<u8>,
    from: int,
    items: Seq<Item>,
    k: int,
    v: ScannerView,
)
    requires
        0 <= k <= items.len(),
        written(g, from, items, v.data_size_64),
        at_chunk(g, from, items, k, v),
    ensures
        scanned(g, v) matches Ok(end) && {
            &&& content_of(as_chunks(items)) == Some(content(end))
            &&& stands_at(g, end.data, last_audio(as_chunks(items)))
            &&& end.container == v.container
            &&& but_sizes(bodies(g, end.chunks)) == as_chunks(items)
        },
    decreases items.len() - k,
{
    if k < items.len() {
        let next = lemma_one_chunk_on(g, from, items, k, v);
        lemma_written_scans(g, from, items, k + 1, next);
    } else {
        reveal(ScannerView::header);
        assert(items.take(k) =~= items);
        assert(g.skip(from).len() == g.len() - from);
        let (at, count) = v.wants();
        let b = g.subrange(at, at + count);
        lemma_fed_stays(v, b);
        let end = v.header(b);
        assert(content(end) =~= content(v));
        assert(scanned(g, v) == scanned(g, end));
    }
}

/// A chunk with a new body.
pub open spec fn fresh(id: Seq<u8>, body: Seq<u8>) -> Item {
    Item { id, body, said: body.len() as u32 }
}

/// A chunk of the file `f` as it is carried over.
pub open spec fn kept(f: Seq<u8>, c: ChunkView, wide: bool) -> Item {
    Item {
        id: c.id,
        body: f.subrange(c.start as int, c.end as int),
        said: if wide || c.end - c.start > u32::MAX {
            u32::MAX
        } else {
            (c.end - c.start) as u32
        },
    }
}

pub open spec fn new_bext(s: Sources) -> Seq<Item> {
    match s.changes.bext {
        Some(b) => seq![fresh(BEXT@, b)],
        None => Seq::empty(),
    }
}

pub open spec fn new_ixml(s: Sources) -> Seq<Item> {
    match s.changes.ixml {
        Some(t) => seq![fresh(IXML@, encode_utf8(t))],
        None => Seq::empty(),
    }
}

pub open spec fn new_info(s: Sources) -> Seq<Item> {
    match s.changes.info {
        Some(entries) => if entries.len() == 0 {
            Seq::empty()
        } else {
            seq![fresh(LIST@, info_body_of(entries, s.info))]
        },
        None => Seq::empty(),
    }
}

pub open spec fn new_marks(s: Sources) -> Seq<Item> {
    match s.changes.markers {
        Some(ms) => {
            let (cue, adtl) = mark_bodies_of(ms, s.marks);
            match adtl {
                Some(body) => seq![fresh(CUE@, cue), fresh(LIST@, body)],
                None => seq![fresh(CUE@, cue)],
            }
        },
        None => Seq::empty(),
    }
}

/// Chunks that are written unless they are there already.
pub open spec fn added(there: bool, items: Seq<Item>) -> Seq<Item> {
    if there {
        Seq::empty()
    } else {
        items
    }
}

/// The chunks that are written where the chunk `c` of the file `f` stood,
/// with those before it laid out as `l`.
pub open spec fn items_for(
    l: LayoutView,
    s: Sources,
    f: Seq<u8>,
    c: ChunkView,
    kind: Seq<u8>,
) -> Seq<Item> {
    if c.id == DS64@ {
        Seq::empty()
    } else if c.id == BEXT@ && s.changes.bext is Some && !l.bext {
        new_bext(s)
    } else if c.id == IXML@ && s.changes.ixml is Some && !l.ixml {
        new_ixml(s)
    } else if c.id == CUE@ && s.changes.markers is Some {
        added(l.markers, new_marks(s))
    } else if c.id == LIST@ && kind == INFO@ && s.changes.info is Some {
        added(l.info, new_info(s))
    } else if c.id == LIST@ && kind == ADTL@ && s.changes.markers is Some {
        Seq::empty()
    } else if c.id == DATA@ {
        added(s.has_bext || l.bext, new_bext(s)) + seq![kept(f, c, s.wide)]
    } else {
        seq![kept(f, c, false)]
    }
}

/// The chunks that are written in place of those of the file `f`.
pub open spec fn items_laid(
    s: Sources,
    f: Seq<u8>,
    chunks: Seq<ChunkView>,
    held: Seq<HeldView>,
) -> Seq<Item>
    decreases chunks.len(),
{
    if chunks.len() == 0 {
        Seq::empty()
    } else {
        items_laid(s, f, chunks.drop_last(), held) + items_for(
            chunks_laid(s, chunks.drop_last(), held),
            s,
            f,
            chunks.last(),
            held[chunks.len() - 1].kind,
        )
    }
}

/// The chunks of the new file.
pub open spec fn new_chunks(
    s: Sources,
    f: Seq<u8>,
    chunks: Seq<ChunkView>,
    held: Seq<HeldView>,
) -> Seq<Item> {
    let l = chunks_laid(s, chunks, held);
    items_laid(s, f, chunks, held) + added(l.info, new_info(s)) + added(l.markers, new_marks(s))
        + added(l.ixml, new_ixml(s))
}

pub proof fn lemma_rendered_add(f: Seq<u8>, a: Seq<PieceView>, b: Seq<PieceView>)
    ensures
        rendered(f, a + b) == rendered(f, a) + rendered(f, b),
    decreases b.len(),
{
    if b.len() == 0 {
        assert(a + b =~= a);
        assert(rendered(f, a) + rendered(f, b) =~= rendered(f, a));
    } else {
        assert((a + b).drop_last() =~= a + b.drop_last());
        assert((a + b).last() == b.last());
        lemma_rendered_add(f, a, b.drop_last());
        assert(rendered(f, a + b) =~= rendered(f, a) + rendered(f, b));
    }
}

proof fn lemma_laid_add(a: Seq<Item>, b: Seq<Item>)
    ensures
        laid(a + b) == laid(a) + laid(b),
    decreases b.len(),
{
    if b.len() == 0 {
        assert(a + b =~= a);
        assert(laid(a) + laid(b) =~= laid(a));
    } else {
        assert((a + b).drop_last() =~= a + b.drop_last());
        assert((a + b).last() == b.last());
        lemma_laid_add(a, b.drop_last());
        assert(laid(a + b) =~= laid(a) + laid(b));
    }
}

proof fn lemma_laid_one(i: Item)
    ensures
        laid(seq![i]) == item_bytes(i),
{
    assert(laid(Seq::<Item>::empty()) =~= Seq::<u8>::empty());
    assert(seq![i].drop_last() =~= Seq::<Item>::empty());
    assert(laid(seq![i]) =~= item_bytes(i));
}

/// A piece with a new chunk in it is that chunk.
proof fn lemma_fresh(f: Seq<u8>, pieces: Seq<PieceView>, items: Seq<Item>, id: Seq<u8>, body: Seq<u8>)
    requires
        rendered(f, pieces) == laid(items),
    ensures
        rendered(f, pieces.push(PieceView::Bytes(packed((id, body))))) == laid(
            items + seq![fresh(id, body)],
        ),
{
    let more = pieces.push(PieceView::Bytes(packed((id, body))));
    assert(more.drop_last() =~= pieces);
    lemma_laid_add(items, seq![fresh(id, body)]);
    lemma_laid_one(fresh(id, body));
    assert(packed((id, body)) =~= item_bytes(fresh(id, body)));
}

/// The pieces with a chunk that is carried over are that chunk.
proof fn lemma_kept(f: Seq<u8>, pieces: Seq<PieceView>, items: Seq<Item>, c: ChunkView, wide: bool)
    requires
        rendered(f, pieces) == laid(items),
        c.start <= c.end <= f.len(),
    ensures
        rendered(f, pieces + copied(c.id, c.start, c.end, wide)) == laid(
            items + seq![kept(f, c, wide)],
        ),
{
    let x = kept(f, c, wide);
    let more = copied(c.id, c.start, c.end, wide);
    lemma_rendered_add(f, pieces, more);
    lemma_laid_add(items, seq![x]);
    lemma_laid_one(x);
    let head = seq![PieceView::Bytes(c.id + le4(x.said)), PieceView::Copy(c.start, c.end)];
    assert(head.drop_last() =~= seq![PieceView::Bytes(c.id + le4(x.said))]);
    assert(rendered(f, Seq::<PieceView>::empty()) =~= Seq::<u8>::empty());
    assert(head.drop_last().drop_last() =~= Seq::<PieceView>::empty());
    assert(rendered(f, head.drop_last()) =~= c.id + le4(x.said));
    assert(rendered(f, head) =~= c.id + le4(x.said) + x.body);
    if (c.end - c.start) % 2 == 1 {
        assert(more.drop_last() =~= head);
    } else {
        assert(more =~= head);
    }
    assert(rendered(f, more) =~= item_bytes(x));
}

/// The pieces in place of one chunk of the file are the chunks written there.
proof fn lemma_chunk_laid(
    f: Seq<u8>,
    l: LayoutView,
    items: Seq<Item>,
    s: Sources,
    c: ChunkView,
    kind: Seq<u8>,
)
    requires
        rendered(f, l.pieces) == laid(items),
        c.start <= c.end <= f.len(),
    ensures
        rendered(f, l.chunk(s, c, kind).pieces) == laid(items + items_for(l, s, f, c, kind)),
{
    lemma_ids();
    lemma_bext_laid(f, l, items, s);
    lemma_ixml_laid(f, l, items, s);
    lemma_info_laid(f, l, items, s);
    lemma_marks_laid(f, l, items, s);
    assert(items + Seq::<Item>::empty() =~= items);
    lemma_kept(f, l.pieces, items, c, false);
    lemma_kept(f, l.pieces, items, c, s.wide);
    lemma_kept(f, l.put_bext(s).pieces, items + added(l.bext, new_bext(s)), c, s.wide);
    assert(items + added(l.bext, new_bext(s)) + seq![kept(f, c, s.wide)] =~= items + (added(
        l.bext,
        new_bext(s),
    ) + seq![kept(f, c, s.wide)]));
    assert(Seq::<Item>::empty() + seq![kept(f, c, s.wide)] =~= seq![kept(f, c, s.wide)]);
}

proof fn lemma_bext_laid(f: Seq<u8>, l: LayoutView, items: Seq<Item>, s: Sources)
    requires
        rendered(f, l.pieces) == laid(items),
    ensures
        rendered(f, l.put_bext(s).pieces) == laid(items + added(l.bext, new_bext(s))),
{
    assert(items + Seq::<Item>::empty() =~= items);
    match s.changes.bext {
        Some(b) => {
            lemma_fresh(f, l.pieces, items, BEXT@, b);
        },
        None => {},
    }
}

proof fn lemma_ixml_laid(f: Seq<u8>, l: LayoutView, items: Seq<Item>, s: Sources)
    requires
        rendered(f, l.pieces) == laid(items),
    ensures
        rendered(f, l.put_ixml(s).pieces) == laid(items + added(l.ixml, new_ixml(s))),
{
    assert(items + Seq::<Item>::empty() =~= items);
    match s.changes.ixml {
        Some(t) => {
            lemma_fresh(f, l.pieces, items, IXML@, encode_utf8(t));
        },
        None => {},
    }
}

proof fn lemma_info_laid(f: Seq<u8>, l: LayoutView, items: Seq<Item>, s: Sources)
    requires
        rendered(f, l.pieces) == laid(items),
    ensures
        rendered(f, l.put_info(s).pieces) == laid(items + added(l.info, new_info(s))),
{
    assert(items + Seq::<Item>::empty() =~= items);
    match s.changes.info {
        Some(entries) => {
            lemma_fresh(f, l.pieces, items, LIST@, info_body_of(entries, s.info));
        },
        None => {},
    }
}

proof fn lemma_marks_laid(f: Seq<u8>, l: LayoutView, items: Seq<Item>, s: Sources)
    requires
        rendered(f, l.pieces) == laid(items),
    ensures
        rendered(f, l.put_marks(s).pieces) == laid(items + added(l.markers, new_marks(s))),
{
    assert(items + Seq::<Item>::empty() =~= items);
    match s.changes.markers {
        Some(ms) => {
            let (cue, adtl) = mark_bodies_of(ms, s.marks);
            lemma_fresh(f, l.pieces, items, CUE@, cue);
            match adtl {
                Some(body) => {
                    let more = items + seq![fresh(CUE@, cue)];
                    lemma_fresh(f, l.add_chunk(CUE@, cue), more, LIST@, body);
                    assert(more + seq![fresh(LIST@, body)] =~= items + seq![
                        fresh(CUE@, cue),
                        fresh(LIST@, body),
                    ]);
                },
                None => {},
            }
        },
        None => {},
    }
}

proof fn lemma_chunks_laid(s: Sources, f: Seq<u8>, chunks: Seq<ChunkView>, held: Seq<HeldView>)
    requires
        chunks_within(chunks, f.len() as int),
    ensures
        rendered(f, chunks_laid(s, chunks, held).pieces) == laid(items_laid(s, f, chunks, held)),
    decreases chunks.len(),
{
    if chunks.len() > 0 {
        lemma_chunks_laid(s, f, chunks.drop_last(), held);
        assert(chunks.last() == chunks[chunks.len() - 1]);
        lemma_chunk_laid(
            f,
            chunks_laid(s, chunks.drop_last(), held),
            items_laid(s, f, chunks.drop_last(), held),
            s,
            chunks.last(),
            held[chunks.len() - 1].kind,
        );
    }
}

/// What is written behind the header of the new file is its chunks.
proof fn lemma_body_laid(f: Seq<u8>, w: WavView, held: Seq<HeldView>, changes: ChangesView)
    requires
        chunks_within(w.chunks, f.len() as int),
    ensures
        rendered(f, body_of(w, held, changes)) == laid(
            new_chunks(sources_of(w, held, changes), f, w.chunks, held),
        ),
{
    reveal(body_of);
    let s = sources_of(w, held, changes);
    lemma_chunks_laid(s, f, w.chunks, held);
    let l = chunks_laid(s, w.chunks, held);
    let items = items_laid(s, f, w.chunks, held);
    lemma_info_laid(f, l, items, s);
    let l1 = l.put_info(s);
    let items1 = items + added(l.info, new_info(s));
    lemma_marks_laid(f, l1, items1, s);
    let l2 = l1.put_marks(s);
    let items2 = items1 + added(l.markers, new_marks(s));
    lemma_ixml_laid(f, l2, items2, s);
}

/// Whether the new chunks are no longer than what is read of a chunk, and a
/// new `bext` chunk is as long as one has to be.
pub open spec fn is_read_whole(s: Sources) -> bool {
    &&& s.changes.bext matches Some(b) ==> 346 <= b.len() <= METADATA_MAX
    &&& s.changes.ixml matches Some(t) ==> encode_utf8(t).len() <= METADATA_MAX
    &&& s.changes.info matches Some(e) ==> info_body_of(e, s.info).len() <= METADATA_MAX
    &&& s.changes.markers matches Some(ms) ==> {
        &&& mark_bodies_of(ms, s.marks).0.len() <= METADATA_MAX
        &&& mark_bodies_of(ms, s.marks).1 matches Some(b) ==> b.len() <= METADATA_MAX
    }
}

proof fn lemma_one_more(items: Seq<Item>, x: Item)
    ensures
        content_of(as_chunks(items + seq![x])) == match content_of(as_chunks(items)) {
            Some(c) => c.with(x.id, x.body),
            None => None,
        },
        last_audio(as_chunks(items + seq![x])) == if x.id == DATA@ {
            Some(x.body)
        } else {
            last_audio(as_chunks(items))
        },
{
    let all = as_chunks(items + seq![x]);
    assert(all.drop_last() =~= as_chunks(items));
    assert(all.last() == (x.id, x.body));
}

/// What the subchunks of the new `adtl` list are.
pub open spec fn new_adtl(s: Sources) -> Seq<(Seq<u8>, Seq<u8>)> {
    match s.changes.markers {
        Some(ms) => match mark_bodies_of(ms, s.marks).1 {
            Some(body) => subchunks_of(body.skip(4)),
            None => Seq::empty(),
        },
        None => Seq::empty(),
    }
}

proof fn lemma_new_bext_says(items: Seq<Item>, c: Content, s: Sources)
    requires
        content_of(as_chunks(items)) == Some(c),
        is_read_whole(s),
        c.bext is None,
    ensures
        content_of(as_chunks(items + new_bext(s))) == Some(
            Content {
                bext: match s.changes.bext {
                    Some(b) => bext_of(b),
                    None => None,
                },
                ..c
            },
        ),
        last_audio(as_chunks(items + new_bext(s))) == last_audio(as_chunks(items)),
{
    reveal(Content::with);
    lemma_ids();
    assert(items + Seq::<Item>::empty() =~= items);
    if let Some(b) = s.changes.bext {
        lemma_one_more(items, fresh(BEXT@, b));
        assert(front(b) =~= b);
    }
}

proof fn lemma_new_ixml_says(items: Seq<Item>, c: Content, s: Sources)
    requires
        content_of(as_chunks(items)) == Some(c),
        is_read_whole(s),
        c.ixml is None,
    ensures
        content_of(as_chunks(items + new_ixml(s))) == Some(
            Content {
                ixml: match s.changes.ixml {
                    Some(t) => Some(text_of(encode_utf8(t))),
                    None => None,
                },
                ..c
            },
        ),
        last_audio(as_chunks(items + new_ixml(s))) == last_audio(as_chunks(items)),
{
    reveal(Content::with);
    lemma_ids();
    assert(items + Seq::<Item>::empty() =~= items);
    if let Some(t) = s.changes.ixml {
        lemma_one_more(items, fresh(IXML@, encode_utf8(t)));
        assert(front(encode_utf8(t)) =~= encode_utf8(t));
    }
}

/// What the new `INFO` list says.
pub open spec fn info_said(s: Sources) -> Seq<(Seq<u8>, Seq<char>)> {
    match s.changes.info {
        Some(e) => if e.len() == 0 {
            Seq::empty()
        } else {
            info_of(info_body_of(e, s.info).skip(4))
        },
        None => Seq::empty(),
    }
}

proof fn lemma_new_info_says(items: Seq<Item>, c: Content, s: Sources)
    requires
        content_of(as_chunks(items)) == Some(c),
        is_read_whole(s),
    ensures
        content_of(as_chunks(items + new_info(s))) == Some(
            Content { info: c.info + info_said(s), ..c },
        ),
        last_audio(as_chunks(items + new_info(s))) == last_audio(as_chunks(items)),
{
    reveal(Content::with);
    lemma_ids();
    assert(items + Seq::<Item>::empty() =~= items);
    assert(c.info + Seq::<(Seq<u8>, Seq<char>)>::empty() =~= c.info);
    if let Some(e) = s.changes.info {
        let body = info_body_of(e, s.info);
        lemma_one_more(items, fresh(LIST@, body));
        assert(front(body) =~= body);
        assert(body.take(4) =~= INFO@);
    }
}

proof fn lemma_cue_says(c: Content, cue: Seq<u8>)
    requires
        c.points is None,
        cue.len() <= METADATA_MAX,
    ensures
        c.with(CUE@, cue) == Some(Content { points: Some(cue_of(cue)), ..c }),
{
    reveal(Content::with);
    lemma_ids();
    assert(front(cue) =~= cue);
}

proof fn lemma_adtl_says(c: Content, body: Seq<u8>)
    requires
        4 <= body.len() <= METADATA_MAX,
        body.take(4) == ADTL@,
    ensures
        c.with(LIST@, body) == Some(Content { adtl: c.adtl + subchunks_of(body.skip(4)), ..c }),
{
    reveal(Content::with);
    lemma_ids();
    assert(front(body) =~= body);
}

proof fn lemma_new_marks_say(items: Seq<Item>, c: Content, s: Sources)
    requires
        content_of(as_chunks(items)) == Some(c),
        is_read_whole(s),
        c.points is None,
        s.changes.markers is Some,
    ensures
        content_of(as_chunks(items + new_marks(s))) == Some(
            Content {
                points: Some(cue_of(mark_bodies_of(s.changes.markers->0, s.marks).0)),
                adtl: c.adtl + new_adtl(s),
                ..c
            },
        ),
        last_audio(as_chunks(items + new_marks(s))) == last_audio(as_chunks(items)),
{
    lemma_ids();
    let ms = s.changes.markers->0;
    let (cue, adtl) = mark_bodies_of(ms, s.marks);
    lemma_one_more(items, fresh(CUE@, cue));
    lemma_cue_says(c, cue);
    let said = Content { points: Some(cue_of(cue)), ..c };
    let more = items + seq![fresh(CUE@, cue)];
    match adtl {
        Some(body) => {
            assert(body.take(4) =~= ADTL@);
            lemma_one_more(more, fresh(LIST@, body));
            lemma_adtl_says(said, body);
            assert(more + seq![fresh(LIST@, body)] =~= items + seq![
                fresh(CUE@, cue),
                fresh(LIST@, body),
            ]);
        },
        None => {
            assert(c.adtl + Seq::<(Seq<u8>, Seq<u8>)>::empty() =~= c.adtl);
        },
    }
}

/// Whether a chunk is a list of this type.
pub open spec fn is_list(id: Seq<u8>, body: Seq<u8>, kind: Seq<u8>) -> bool {
    id == LIST@ && body.len() >= 4 && body.take(4) == kind
}

/// One more chunk says the same to whoever has heard the same, and nothing of
/// what it is not about.
proof fn lemma_same_said(c: Content, d: Content, id: Seq<u8>, body: Seq<u8>)
    requires
        c.with(id, body) is Some,
    ensures
        d.with(id, body) is Some,
        ({
            let x = c.with(id, body)->0;
            let y = d.with(id, body)->0;
            &&& c.format == d.format ==> x.format == y.format
            &&& c.bext == d.bext ==> x.bext == y.bext
            &&& c.ixml == d.ixml ==> x.ixml == y.ixml
            &&& c.info == d.info ==> x.info == y.info
            &&& c.points == d.points ==> x.points == y.points
            &&& c.adtl == d.adtl ==> x.adtl == y.adtl
            &&& id != FMT@ ==> y.format == d.format
            &&& id != BEXT@ || d.bext is Some ==> y.bext == d.bext
            &&& id != IXML@ || d.ixml is Some ==> y.ixml == d.ixml
            &&& id != CUE@ ==> y.points == d.points
            &&& !is_list(id, body, INFO@) ==> y.info == d.info
            &&& !is_list(id, body, ADTL@) ==> y.adtl == d.adtl
        }),
{
    reveal(Content::with);
    lemma_ids();
    let b = front(body);
    assert(b.len() >= 4 <==> body.len() >= 4);
    if body.len() >= 4 {
        assert(b.take(4) =~= body.take(4));
    }
}

/// Whether what the new chunks say so far is what those of the old file say,
/// but for the changes.
spec fn carried(s: Sources, l: LayoutView, old: Content, new: Content) -> bool {
    &&& new.format == old.format
    &&& match s.changes.bext {
        Some(b) => new.bext == if l.bext {
            bext_of(b)
        } else {
            None
        },
        None => new.bext == old.bext,
    }
    &&& match s.changes.ixml {
        Some(t) => new.ixml == if l.ixml {
            Some(text_of(encode_utf8(t)))
        } else {
            None
        },
        None => new.ixml == old.ixml,
    }
    &&& match s.changes.info {
        Some(_) => new.info == if l.info {
            info_said(s)
        } else {
            Seq::empty()
        },
        None => new.info == old.info,
    }
    &&& match s.changes.markers {
        Some(ms) => if l.markers {
            new.points == Some(cue_of(mark_bodies_of(ms, s.marks).0)) && new.adtl == new_adtl(s)
        } else {
            new.points is None && new.adtl == Seq::<(Seq<u8>, Seq<u8>)>::empty()
        },
        None => new.points == old.points && new.adtl == old.adtl,
    }
}

/// The new chunks in place of one of the old file carry over what it says,
/// but for the changes.
proof fn lemma_one_carried(
    f: Seq<u8>,
    s: Sources,
    l: LayoutView,
    items: Seq<Item>,
    c: ChunkView,
    old: Content,
    new: Content,
) -> (next: Content)
    requires
        is_read_whole(s),
        c.start <= c.end <= f.len(),
        content_of(as_chunks(items)) == Some(new),
        carried(s, l, old, new),
        old.with(c.id, f.subrange(c.start as int, c.end as int)) is Some,
    ensures
        ({
            let kind = list_type_of(f, c);
            let body = f.subrange(c.start as int, c.end as int);
            let all = items + items_for(l, s, f, c, kind);
            &&& content_of(as_chunks(all)) == Some(next)
            &&& carried(s, l.chunk(s, c, kind), old.with(c.id, body)->0, next)
            &&& last_audio(as_chunks(all)) == if c.id == DATA@ {
                Some(body)
            } else {
                last_audio(as_chunks(items))
            }
        }),
{
    lemma_ids();
    let kind = list_type_of(f, c);
    let body = f.subrange(c.start as int, c.end as int);
    lemma_kind(f, c);
    let after = old.with(c.id, body)->0;
    lemma_same_said(old, old, c.id, body);
    lemma_same_said(old, new, c.id, body);
    assert(items + Seq::<Item>::empty() =~= items);
    if c.id == DS64@ {
        new
    } else if c.id == BEXT@ && s.changes.bext is Some && !l.bext {
        lemma_new_bext_says(items, new, s);
        Content { bext: bext_of(s.changes.bext->0), ..new }
    } else if c.id == IXML@ && s.changes.ixml is Some && !l.ixml {
        lemma_new_ixml_says(items, new, s);
        Content { ixml: Some(text_of(encode_utf8(s.changes.ixml->0))), ..new }
    } else if c.id == CUE@ && s.changes.markers is Some {
        if l.markers {
            new
        } else {
            lemma_new_marks_say(items, new, s);
            assert(Seq::<(Seq<u8>, Seq<u8>)>::empty() + new_adtl(s) =~= new_adtl(s));
            content_of(as_chunks(items + new_marks(s)))->0
        }
    } else if c.id == LIST@ && kind == INFO@ && s.changes.info is Some {
        if l.info {
            new
        } else {
            lemma_new_info_says(items, new, s);
            assert(Seq::<(Seq<u8>, Seq<char>)>::empty() + info_said(s) =~= info_said(s));
            content_of(as_chunks(items + new_info(s)))->0
        }
    } else if c.id == LIST@ && kind == ADTL@ && s.changes.markers is Some {
        new
    } else if c.id == DATA@ {
        let x = kept(f, c, s.wide);
        if s.has_bext || l.bext {
            assert(Seq::<Item>::empty() + seq![x] =~= seq![x]);
            lemma_one_more(items, x);
            lemma_data_says(new, body);
            new
        } else if s.changes.bext is Some {
            let more = items + new_bext(s);
            lemma_new_bext_says(items, new, s);
            let said = Content { bext: bext_of(s.changes.bext->0), ..new };
            lemma_one_more(more, x);
            lemma_data_says(said, body);
            assert(more + seq![x] =~= items + (new_bext(s) + seq![x]));
            said
        } else {
            assert(new_bext(s) + seq![x] =~= seq![x]);
            lemma_one_more(items, x);
            lemma_data_says(new, body);
            new
        }
    } else {
        lemma_one_more(items, kept(f, c, false));
        new.with(c.id, body)->0
    }
}

/// Sample data says nothing.
proof fn lemma_data_says(c: Content, body: Seq<u8>)
    ensures
        c.with(DATA@, body) == Some(c),
{
    reveal(Content::with);
    lemma_ids();
}

/// The type of a list, as it is looked up and as it is read.
proof fn lemma_kind(f: Seq<u8>, c: ChunkView)
    requires
        c.start <= c.end <= f.len(),
    ensures
        ({
            let body = f.subrange(c.start as int, c.end as int);
            &&& is_list(c.id, body, INFO@) <==> c.id == LIST@ && list_type_of(f, c) == INFO@
            &&& is_list(c.id, body, ADTL@) <==> c.id == LIST@ && list_type_of(f, c) == ADTL@
        }),
{
    let body = f.subrange(c.start as int, c.end as int);
    assert(zeros(4)[0] == 0 && INFO@[0] == 0x49 && ADTL@[0] == 0x61);
    if body.len() >= 4 {
        assert(body.take(4) =~= f.subrange(c.start as int, c.start + 4));
    }
}

/// Whether there is a chunk with this id.
pub open spec fn has_chunk(chunks: Seq<ChunkView>, id: Seq<u8>) -> bool {
    exists|i: int| 0 <= i < chunks.len() && (#[trigger] chunks[i]).id == id
}

/// A new `bext` chunk has its place by the time that the one of the old file
/// was met, or the sample data where there was none.
proof fn lemma_bext_has_its_place(s: Sources, chunks: Seq<ChunkView>, held: Seq<HeldView>)
    requires
        s.changes.bext is Some,
        has_chunk(chunks, BEXT@) || (!s.has_bext && has_chunk(chunks, DATA@)),
    ensures
        chunks_laid(s, chunks, held).bext,
    decreases chunks.len(),
{
    lemma_ids();
    let rest = chunks.drop_last();
    let c = chunks.last();
    if has_chunk(rest, BEXT@) || (!s.has_bext && has_chunk(rest, DATA@)) {
        lemma_bext_has_its_place(s, rest, held);
    } else {
        let id = if has_chunk(chunks, BEXT@) {
            BEXT@
        } else {
            DATA@
        };
        let i = choose|i: int| 0 <= i < chunks.len() && (#[trigger] chunks[i]).id == id;
        if i < rest.len() {
            assert(rest[i].id == id);
            assert(has_chunk(rest, id));
        }
        assert(c.id == id);
    }
}

/// What the chunks in place of those of the old file say.
proof fn lemma_all_carried(f: Seq<u8>, s: Sources, chunks: Seq<ChunkView>, held: Seq<HeldView>)
    requires
        is_read_whole(s),
        chunks_within(chunks, f.len() as int),
        content_of(bodies(f, chunks)) is Some,
        forall|i: int|
            0 <= i < chunks.len() ==> (#[trigger] held[i]).kind == list_type_of(f, chunks[i]),
    ensures
        content_of(as_chunks(items_laid(s, f, chunks, held))) is Some,
        carried(
            s,
            chunks_laid(s, chunks, held),
            content_of(bodies(f, chunks))->0,
            content_of(as_chunks(items_laid(s, f, chunks, held)))->0,
        ),
        last_audio(as_chunks(items_laid(s, f, chunks, held))) == last_audio(bodies(f, chunks)),
    decreases chunks.len(),
{
    if chunks.len() == 0 {
        assert(bodies(f, chunks) =~= Seq::<(Seq<u8>, Seq<u8>)>::empty());
        assert(as_chunks(Seq::<Item>::empty()) =~= Seq::<(Seq<u8>, Seq<u8>)>::empty());
    } else {
        let rest = chunks.drop_last();
        let c = chunks.last();
        assert(chunks[chunks.len() - 1] == c);
        assert(bodies(f, chunks).drop_last() =~= bodies(f, rest));
        assert(bodies(f, chunks).last() == (c.id, f.subrange(c.start as int, c.end as int)));
        lemma_all_carried(f, s, rest, held);
        let l = chunks_laid(s, rest, held);
        let items = items_laid(s, f, rest, held);
        let old = content_of(bodies(f, rest))->0;
        let new = content_of(as_chunks(items))->0;
        assert(held[chunks.len() - 1].kind == list_type_of(f, c));
        let next = lemma_one_carried(f, s, l, items, c, old, new);
    }
}

/// What the new file's chunks say: what those of the old file say, but for
/// the changes.
proof fn lemma_new_file_says(f: Seq<u8>, s: Sources, chunks: Seq<ChunkView>, held: Seq<HeldView>)
    requires
        is_read_whole(s),
        chunks_within(chunks, f.len() as int),
        content_of(bodies(f, chunks)) is Some,
        forall|i: int|
            0 <= i < chunks.len() ==> (#[trigger] held[i]).kind == list_type_of(f, chunks[i]),
        s.has_bext == has_chunk(chunks, BEXT@),
        has_chunk(chunks, DATA@),
    ensures
        ({
            let old = content_of(bodies(f, chunks))->0;
            let all = as_chunks(new_chunks(s, f, chunks, held));
            &&& content_of(all) matches Some(new) && {
                &&& new.format == old.format
                &&& new.bext == match s.changes.bext {
                    Some(b) => bext_of(b),
                    None => old.bext,
                }
                &&& new.ixml == match s.changes.ixml {
                    Some(t) => Some(text_of(encode_utf8(t))),
                    None => old.ixml,
                }
                &&& new.info == match s.changes.info {
                    Some(_) => info_said(s),
                    None => old.info,
                }
                &&& new.points == match s.changes.markers {
                    Some(ms) => Some(cue_of(mark_bodies_of(ms, s.marks).0)),
                    None => old.points,
                }
                &&& new.adtl == match s.changes.markers {
                    Some(_) => new_adtl(s),
                    None => old.adtl,
                }
            }
            &&& last_audio(all) == last_audio(bodies(f, chunks))
        }),
{
    lemma_all_carried(f, s, chunks, held);
    let l = chunks_laid(s, chunks, held);
    if s.changes.bext is Some {
        lemma_bext_has_its_place(s, chunks, held);
    }
    let items = items_laid(s, f, chunks, held);
    let c0 = content_of(as_chunks(items))->0;
    assert(items + Seq::<Item>::empty() =~= items);
    if !l.info {
        lemma_new_info_says(items, c0, s);
        if s.changes.info is Some {
            assert(c0.info + info_said(s) =~= info_said(s));
        } else {
            assert(c0.info + info_said(s) =~= c0.info);
        }
    }
    let items1 = items + added(l.info, new_info(s));
    let c1 = content_of(as_chunks(items1))->0;
    assert(items1 + Seq::<Item>::empty() =~= items1);
    if !l.markers && s.changes.markers is Some {
        lemma_new_marks_say(items1, c1, s);
        assert(c1.adtl + new_adtl(s) =~= new_adtl(s));
    }
    let items2 = items1 + added(l.markers, new_marks(s));
    let c2 = content_of(as_chunks(items2))->0;
    assert(items2 + Seq::<Item>::empty() =~= items2);
    if !l.ixml && s.changes.ixml is Some {
        lemma_new_ixml_says(items2, c2, s);
    }
}

/// Whether a chunk that is written is no `ds64` and says its size; the
/// sample data of a file with its sizes in 64 bits says the largest.
spec fn proper(x: Item, wide: bool) -> bool {
    &&& x.id.len() == 4
    &&& x.id != DS64@
    &&& if x.id == DATA@ && (wide || x.body.len() > u32::MAX) {
        x.said == u32::MAX
    } else {
        x.said == x.body.len()
    }
}

spec fn all_proper(items: Seq<Item>, wide: bool) -> bool {
    forall|i: int| 0 <= i < items.len() ==> proper(#[trigger] items[i], wide)
}

proof fn lemma_proper_add(a: Seq<Item>, b: Seq<Item>, wide: bool)
    requires
        all_proper(a, wide),
        all_proper(b, wide),
    ensures
        all_proper(a + b, wide),
{
    assert forall|i: int| 0 <= i < (a + b).len() implies proper(#[trigger] (a + b)[i], wide) by {
        if i < a.len() {
            assert((a + b)[i] == a[i]);
        } else {
            assert((a + b)[i] == b[i - a.len()]);
        }
    }
}

proof fn lemma_new_are_proper(s: Sources, wide: bool)
    requires
        is_read_whole(s),
    ensures
        all_proper(new_bext(s), wide),
        all_proper(new_ixml(s), wide),
        all_proper(new_info(s), wide),
        all_proper(new_marks(s), wide),
        all_proper(Seq::<Item>::empty(), wide),
{
    lemma_ids();
    assert(BEXT@.len() == 4 && IXML@.len() == 4 && LIST@.len() == 4 && CUE@.len() == 4);
}

proof fn lemma_kept_is_proper(f: Seq<u8>, c: ChunkView, wide: bool)
    requires
        c.start <= c.end <= f.len(),
        in_bounds(c),
        c.id != DS64@,
    ensures
        all_proper(seq![kept(f, c, if c.id == DATA@ {
            wide
        } else {
            false
        })], wide),
{
}

proof fn lemma_items_for_are_proper(
    l: LayoutView,
    s: Sources,
    f: Seq<u8>,
    c: ChunkView,
    kind: Seq<u8>,
)
    requires
        is_read_whole(s),
        c.start <= c.end <= f.len(),
        in_bounds(c),
    ensures
        all_proper(items_for(l, s, f, c, kind), s.wide),
{
    lemma_new_are_proper(s, s.wide);
    if c.id != DS64@ {
        lemma_kept_is_proper(f, c, s.wide);
        if c.id == DATA@ {
            lemma_proper_add(new_bext(s), seq![kept(f, c, s.wide)], s.wide);
            lemma_proper_add(Seq::empty(), seq![kept(f, c, s.wide)], s.wide);
        }
    }
}

proof fn lemma_items_are_proper(
    s: Sources,
    f: Seq<u8>,
    chunks: Seq<ChunkView>,
    held: Seq<HeldView>,
)
    requires
        is_read_whole(s),
        chunks_within(chunks, f.len() as int),
        forall|i: int| 0 <= i < chunks.len() ==> in_bounds(#[trigger] chunks[i]),
    ensures
        all_proper(items_laid(s, f, chunks, held), s.wide),
    decreases chunks.len(),
{
    if chunks.len() > 0 {
        let rest = chunks.drop_last();
        let c = chunks.last();
        assert(chunks[chunks.len() - 1] == c);
        assert(in_bounds(c));
        lemma_items_are_proper(s, f, rest, held);
        let l = chunks_laid(s, rest, held);
        let kind = held[chunks.len() - 1].kind;
        lemma_items_for_are_proper(l, s, f, c, kind);
        lemma_proper_add(items_laid(s, f, rest, held), items_for(l, s, f, c, kind), s.wide);
    }
}

proof fn lemma_new_chunks_are_proper(
    s: Sources,
    f: Seq<u8>,
    chunks: Seq<ChunkView>,
    held: Seq<HeldView>,
)
    requires
        is_read_whole(s),
        chunks_within(chunks, f.len() as int),
        forall|i: int| 0 <= i < chunks.len() ==> in_bounds(#[trigger] chunks[i]),
    ensures
        all_proper(new_chunks(s, f, chunks, held), s.wide),
{
    lemma_new_are_proper(s, s.wide);
    lemma_items_are_proper(s, f, chunks, held);
    let l = chunks_laid(s, chunks, held);
    let items = items_laid(s, f, chunks, held);
    lemma_proper_add(items, added(l.info, new_info(s)), s.wide);
    let items1 = items + added(l.info, new_info(s));
    lemma_proper_add(items1, added(l.markers, new_marks(s)), s.wide);
    let items2 = items1 + added(l.markers, new_marks(s));
    lemma_proper_add(items2, added(l.ixml, new_ixml(s)), s.wide);
}

proof fn lemma_body_fits(items: Seq<Item>, i: int)
    requires
        0 <= i < items.len(),
    ensures
        items[i].body.len() <= laid(items).len(),
    decreases items.len(),
{
    if i < items.len() - 1 {
        lemma_body_fits(items.drop_last(), i);
        assert(items.drop_last()[i] == items[i]);
    }
}

/// Whether the sample data of a new file is found where it was put. In a
/// file with its sizes in 64 bits there is one size for it; in others, sample
/// data of no size would go on to the end of the file.
pub open spec fn audio_is_found(w: WavView, items: Seq<Item>) -> bool {
    forall|i: int|
        0 <= i < items.len() && (#[trigger] items[i]).id == DATA@ ==> if is_wide(w) {
            items[i].body.len() == w.data.1 - w.data.0
        } else {
            items[i].body.len() == 0 ==> i == items.len() - 1
        }
}

pub proof fn lemma_rendered_len(f: Seq<u8>, s: Seq<PieceView>)
    requires
        pieces_within(s, f.len() as int),
    ensures
        rendered(f, s).len() == pieces_len(s),
    decreases s.len(),
{
    if s.len() > 0 {
        assert forall|i: int| 0 <= i < s.drop_last().len() implies match #[trigger] s.drop_last()[i] {
            PieceView::Copy(start, end) => start <= end <= f.len(),
            PieceView::Bytes(_) => true,
        } by {
            assert(s.drop_last()[i] == s[i]);
        }
        lemma_rendered_len(f, s.drop_last());
        assert(s.last() == s[s.len() - 1]);
    }
}

/// A scan of a new file once its header is read.
spec fn header_read(g: Seq<u8>, from: int, container: Seq<char>, wide: Option<u64>, v: ScannerView) -> bool {
    &&& v.wf()
    &&& v.len == g.len()
    &&& v.phase == Phase::Header
    &&& v.pos == from
    &&& content(v) == silent()
    &&& v.data is None
    &&& v.container == container
    &&& v.data_size_64 == wide
    &&& but_sizes(bodies(g, v.chunks)) == Seq::<(Seq<u8>, Seq<u8>)>::empty()
    &&& scanned(g, scan_start(g.len() as u64)) == scanned(g, v)
}

/// What kind of file one says it is in its first twelve bytes.
proof fn lemma_head_read(g: Seq<u8>, container: Seq<char>) -> (v: ScannerView)
    requires
        12 <= g.len() <= u64::MAX,
        container_of(g.take(12)) == Some(container),
    ensures
        header_read(g, 12, container, None, v),
        v.chunks.len() == 0,
{
    let start = scan_start(g.len() as u64);
    let b = g.subrange(0, 12);
    assert(b =~= g.take(12));
    assert(start.wants() == (0int, 12int));
    lemma_fed_stays(start, b);
    let v = start.fed(b)->Ok_0;
    assert(content(v) =~= silent());
    assert(bodies(g, v.chunks) =~= Seq::<(Seq<u8>, Seq<u8>)>::empty());
    v
}

pub proof fn lemma_containers()
    ensures
        "WAV"@ != "RF64"@,
        "WAV"@ != "BW64"@,
        "RF64"@ != "BW64"@,
        RIFF@ != RF64@,
        RIFF@ != BW64@,
        RF64@ != BW64@,
{
    reveal_strlit("WAV");
    reveal_strlit("RF64");
    reveal_strlit("BW64");
    assert("RF64"@[0] == 'R' && "BW64"@[0] == 'B');
    assert(RIFF@[1] == 0x49 && RF64@[1] == 0x46 && BW64@[1] == 0x57);
}

/// The header of a new file whose sizes are in 32 bits.
proof fn lemma_narrow_header(g: Seq<u8>, w: WavView, rest: Seq<u8>) -> (v: ScannerView)
    requires
        g == header_of(w, g.len() as int) + rest,
        g.len() <= u64::MAX,
        w.container == "WAV"@,
    ensures
        header_read(g, 12, w.container, None, v),
        header_len(w) == 12,
        g.skip(12) == rest,
{
    reveal(header_of);
    lemma_containers();
    let h = header_of(w, g.len() as int);
    assert(h.len() == 12);
    assert(g.take(12) =~= h);
    assert(h.take(4) =~= RIFF@);
    assert(h.subrange(8, 12) =~= WAVE@);
    assert(g.skip(12) =~= rest);
    lemma_head_read(g, w.container)
}

/// The bytes of the header of a new file whose sizes are in 64 bits.
proof fn lemma_wide_bytes(g: Seq<u8>, w: WavView, rest: Seq<u8>)
    requires
        g == header_of(w, g.len() as int) + rest,
        w.container == "RF64"@ || w.container == "BW64"@,
    ensures
        header_len(w) == 48 <= g.len(),
        g.skip(48) == rest,
        container_of(g.take(12)) == Some(w.container),
        g.subrange(12, 20) == DS64@ + le4(28),
        g.subrange(28, 36) == le8((w.data.1 - w.data.0) as u64),
{
    reveal(header_of);
    lemma_containers();
    let total = g.len() as int;
    let data = (w.data.1 - w.data.0) as u64;
    let magic = magic_of(w.container);
    let samples = ((w.data.1 - w.data.0) / (w.kind.width() * w.channels) as int) as u64;
    lemma_le8((total - 8) as u64);
    lemma_le8(data);
    lemma_le8(samples);
    let h = header_of(w, total);
    assert(h == magic + le4(u32::MAX) + WAVE@ + DS64@ + le4(28) + le8((total - 8) as u64) + le8(
        data,
    ) + le8(samples) + le4(0));
    assert(h.len() == 48);
    assert(g.take(12) =~= magic + le4(u32::MAX) + WAVE@);
    assert(g.take(12).take(4) =~= magic);
    assert(g.take(12).subrange(8, 12) =~= WAVE@);
    assert(g.subrange(12, 20) =~= DS64@ + le4(28));
    assert(g.subrange(28, 36) =~= le8(data));
    assert(g.skip(48) =~= rest);
}

/// The header of the `ds64` chunk of a new file.
proof fn lemma_wide_chunk(g: Seq<u8>, v: ScannerView) -> (read: ScannerView)
    requires
        48 <= g.len() <= u64::MAX,
        g.subrange(12, 20) == DS64@ + le4(28),
        v.wf(),
        v.len == g.len(),
        v.phase == Phase::Header,
        v.pos == 12,
    ensures
        scanned(g, v) == scanned(g, read),
        read.wf(),
        read.len == v.len,
        read.phase == Phase::Body,
        read.pos == 48,
        read.chunks.len() > 0,
        read.chunks.drop_last() == v.chunks,
        read.chunks.last() == (ChunkView { id: DS64@, start: 20, end: 48 }),
        content(read) == content(v),
        read.data == v.data,
        read.container == v.container,
{
    reveal(ScannerView::header);
    lemma_ids();
    lemma_le4(28);
    let b = g.subrange(12, 20);
    assert(b.take(4) =~= DS64@);
    assert(u32_le(b, 4) == 28) by {
        assert(b[4] == le4(28)[0] && b[5] == le4(28)[1] && b[6] == le4(28)[2] && b[7] == le4(28)[3]);
    }
    assert(v.wants() == (12int, 8int));
    lemma_fed_stays(v, b);
    let read = v.header(b);
    assert(v.fed(b) == Ok::<ScannerView, Fault>(read));
    assert(content(read) =~= content(v));
    assert(read.chunks.drop_last() =~= v.chunks);
    read
}

/// The header of a new file whose sizes are in 64 bits.
proof fn lemma_wide_header(g: Seq<u8>, w: WavView, rest: Seq<u8>) -> (v: ScannerView)
    requires
        g == header_of(w, g.len() as int) + rest,
        g.len() <= u64::MAX,
        w.container == "RF64"@ || w.container == "BW64"@,
        w.data.0 <= w.data.1,
    ensures
        header_read(g, 48, w.container, Some((w.data.1 - w.data.0) as u64), v),
        header_len(w) == 48,
        g.skip(48) == rest,
{
    reveal(ScannerView::body);
    lemma_wide_bytes(g, w, rest);
    let data = (w.data.1 - w.data.0) as u64;
    let head = lemma_head_read(g, w.container);
    let read = lemma_wide_chunk(g, head);
    let body = g.subrange(20, 48);
    assert(read.wants() == (20int, 28int));
    lemma_le8(data);
    assert(u64_le(body, 8) == data) by {
        let n = le8(data);
        let m = g.subrange(28, 36);
        assert(body[8] == m[0] && body[9] == m[1] && body[10] == m[2] && body[11] == m[3]);
        assert(body[12] == m[4] && body[13] == m[5] && body[14] == m[6] && body[15] == m[7]);
    }
    lemma_fed_stays(read, body);
    let next = read.body(body)->Ok_0;
    assert(read.fed(body) == Ok::<ScannerView, Fault>(next));
    assert(content(next) =~= silent());
    assert(bodies(g, next.chunks).drop_last() =~= bodies(g, head.chunks));
    next
}

proof fn lemma_subchunks_named(b: Seq<u8>)
    ensures
        named_in_four(subchunks_of(b)),
    decreases b.len(),
{
    if b.len() >= 8 {
        lemma_subchunks_named(after_subchunk(b));
        let one = seq![(b.take(4), b.subrange(8, subchunk_end(b)))];
        assert(named_in_four(one));
        lemma_named_add(one, subchunks_of(after_subchunk(b)));
    }
}

/// The marks that are stored in a file are of the right form.
proof fn lemma_stored_marks(chunks: Seq<ChunkView>, held: Seq<HeldView>)
    ensures
        stored_marks_of(chunks, held).whole(),
    decreases chunks.len(),
{
    if chunks.len() > 0 {
        let rest = chunks.drop_last();
        lemma_stored_marks(rest, held);
        let body = held[chunks.len() - 1].body;
        lemma_subchunks_named(after_type(body));
        let before = stored_marks_of(rest, held);
        lemma_named_add(before.adtl, subchunks_of(after_type(body)));
        let more = before.points + cue_points_of(body);
        assert forall|i: int| 0 <= i < more.len() implies (#[trigger] more[i]).len() == 24 by {
            if i < before.points.len() {
                assert(more[i] == before.points[i]);
            } else {
                let j = i - before.points.len();
                assert(more[i] == cue_points_of(body)[j]);
                assert(j < cue_count(body));
            }
        }
    }
}

proof fn lemma_entry_fits(entries: Seq<(Seq<u8>, Seq<u8>)>, i: int)
    requires
        0 <= i < entries.len(),
    ensures
        entries[i].1.len() <= packed_all(entries).len(),
    decreases entries.len(),
{
    if i < entries.len() - 1 {
        lemma_entry_fits(entries.drop_last(), i);
        assert(entries.drop_last()[i] == entries[i]);
    }
}

/// Whether the changes are ones that a file can hold: texts without a NUL
/// or white space around them, marks in their order that each have an id of
/// their own and a place and length that four bytes hold, and nothing longer
/// than what is read of a chunk.
pub open spec fn can_be_kept(s: Sources) -> bool {
    &&& is_read_whole(s)
    &&& s.changes.ixml matches Some(t) ==> forall|i: int| 0 <= i < t.len() ==> #[trigger] t[i] != '\0'
    &&& s.changes.info matches Some(e) ==> forall|i: int|
        0 <= i < e.len() ==> (#[trigger] e[i]).0.len() == 4 && plain(e[i].1)
    &&& s.changes.markers matches Some(ms) ==> {
        &&& sort_marks(ms) == ms
        &&& forall|i: int|
            0 <= i < ms.len() ==> (#[trigger] ms[i]).frame <= u32::MAX && ms[i].length <= u32::MAX
                && plain(ms[i].label) && plain(ms[i].note)
        &&& forall|i: int, j: int|
            0 <= i < j < ms.len() ==> (#[trigger] ms[i]).id != (#[trigger] ms[j]).id
    }
}

/// What the new lists say is what was meant.
proof fn lemma_lists_say_what_is_meant(w: WavView, held: Seq<HeldView>, changes: ChangesView)
    requires
        can_be_kept(sources_of(w, held, changes)),
    ensures
        changes.info matches Some(e) ==> info_said(sources_of(w, held, changes)) == e,
        changes.markers matches Some(ms) ==> markers_of(
            cue_of(mark_bodies_of(ms, sources_of(w, held, changes).marks).0),
            new_adtl(sources_of(w, held, changes)),
        ) == ms,
{
    let s = sources_of(w, held, changes);
    if let Some(e) = changes.info {
        let all = info_entries(e, s.info);
        assert forall|i: int| 0 <= i < e.len() implies (#[trigger] info_entries(e, s.info)[i]).1.len()
            <= u32::MAX by {
            if i < all.len() {
                lemma_entry_fits(all, i);
            } else {
                lemma_info_count(e, s.info);
            }
        }
        written_info_reads_back(e, s.info);
        if e.len() == 0 {
            assert(info_said(s) =~= e);
        }
    }
    if let Some(ms) = changes.markers {
        lemma_stored_marks(w.chunks, held);
        lemma_all_points(ms, s.marks.points);
        let all = adtl_entries(ms, s.marks);
        assert forall|i: int| 0 <= i < all.len() implies (#[trigger] all[i]).1.len()
            <= u32::MAX by {
            lemma_entry_fits(all, i);
        }
        written_marks_read_back(ms, s.marks);
    }
}

proof fn lemma_info_count(e: Seq<(Seq<u8>, Seq<char>)>, unused: Seq<(Seq<u8>, Seq<u8>)>)
    ensures
        info_entries(e, unused).len() == e.len(),
    decreases e.len(),
{
    if e.len() > 0 {
        let at = entry_index(unused, e[0]);
        lemma_info_count(e.skip(1), unused);
        if at < unused.len() {
            lemma_info_count(e.skip(1), unused.remove(at));
        }
    }
}

proof fn lemma_ixml_is_trimmed(chunks: Seq<(Seq<u8>, Seq<u8>)>)
    ensures
        content_of(chunks) matches Some(c) ==> c.ixml matches Some(t) ==> trim_of(t) == t,
    decreases chunks.len(),
{
    if chunks.len() > 0 {
        reveal(Content::with);
        lemma_ixml_is_trimmed(chunks.drop_last());
        let b = front(chunks.last().1);
        trimming_twice_is_trimming_once(decoded(b.take(nul_at(b, 0))));
    }
}

/// The last sample data by its place and by what it holds.
proof fn lemma_last_audio(f: Seq<u8>, chunks: Seq<ChunkView>)
    ensures
        last_audio(bodies(f, chunks)) == match last_data(chunks) {
            Some((a, b)) => Some(f.subrange(a as int, b as int)),
            None => None,
        },
        last_data(chunks) is Some ==> has_chunk(chunks, DATA@),
    decreases chunks.len(),
{
    if chunks.len() > 0 {
        let rest = chunks.drop_last();
        assert(bodies(f, chunks).drop_last() =~= bodies(f, rest));
        lemma_last_audio(f, rest);
        assert(chunks[chunks.len() - 1] == chunks.last());
        if last_data(rest) is Some {
            let i = choose|i: int| 0 <= i < rest.len() && (#[trigger] rest[i]).id == DATA@;
            assert(chunks[i].id == DATA@);
        }
    }
}

/// What was read of a file is what its chunks say.
pub proof fn lemma_old_file(f: Seq<u8>, w: WavView)
    requires
        f.len() <= u64::MAX,
        wav_of(f) == Ok::<WavView, Fault>(w),
    ensures
        ({
            &&& content_of(bodies(f, w.chunks)) matches Some(c) && {
                &&& c.format == Some(
                    Format { sample_rate: w.sample_rate, channels: w.channels, kind: w.kind },
                )
                &&& c.bext == w.bext
                &&& c.ixml == w.ixml
                &&& c.info == w.info
                &&& w.cues == match c.points {
                    Some(points) => Some(markers_of(points, c.adtl)),
                    None => None,
                }
            }
            &&& last_data(w.chunks) == Some(w.data)
            &&& chunks_within(w.chunks, f.len() as int)
            &&& w.data.0 <= w.data.1 <= f.len()
            &&& forall|i: int| 0 <= i < w.chunks.len() ==> in_bounds(#[trigger] w.chunks[i])
            &&& w.container == "WAV"@ || w.container == "RF64"@ || w.container == "BW64"@
        }),
{
    let start = scan_start(f.len() as u64);
    let (at, count) = start.wants();
    let b = f.subrange(at, at + count);
    lemma_fed_stays(start, b);
    let v = start.fed(b)->Ok_0;
    assert(bodies(f, v.chunks) =~= Seq::<(Seq<u8>, Seq<u8>)>::empty());
    assert(content(v) =~= silent());
    lemma_scan_in_step(f, v);
    let end = scanned(f, v)->Ok_0;
    chunks_lie_in_the_file(f);
    let format = end.format->0;
    assert(format == Format {
        sample_rate: w.sample_rate,
        channels: w.channels,
        kind: w.kind,
    });
}

/// What the `ds64` chunk of a new file says of its sample data.
spec fn said_of_data(w: WavView) -> Option<u64> {
    if is_wide(w) {
        Some((w.data.1 - w.data.0) as u64)
    } else {
        None
    }
}

/// The header of a new file, read.
proof fn lemma_new_header(g: Seq<u8>, w: WavView, rest: Seq<u8>) -> (v: ScannerView)
    requires
        g == header_of(w, g.len() as int) + rest,
        g.len() <= u64::MAX,
        w.container == "WAV"@ || w.container == "RF64"@ || w.container == "BW64"@,
        w.data.0 <= w.data.1,
    ensures
        header_read(g, header_len(w), w.container, said_of_data(w), v),
        g.skip(header_len(w)) == rest,
        header_len(w) <= g.len(),
{
    lemma_containers();
    lemma_header_len(w, g.len() as int);
    if is_wide(w) {
        lemma_wide_header(g, w, rest)
    } else {
        lemma_narrow_header(g, w, rest)
    }
}

/// What is read of a new file behind its header: what its chunks say.
proof fn lemma_new_file(w: WavView, items: Seq<Item>, g: Seq<u8>, from: int, v: ScannerView)
    requires
        0 <= from <= g.len() <= u64::MAX,
        header_read(g, from, w.container, said_of_data(w), v),
        g.skip(from) == laid(items),
        w.data.0 <= w.data.1,
        !is_wide(w) ==> laid(items).len() <= u32::MAX,
        all_proper(items, is_wide(w)),
        audio_is_found(w, items),
        content_of(as_chunks(items)) is Some,
    ensures
        scanned(g, scan_start(g.len() as u64)) matches Ok(end) && {
            &&& content_of(as_chunks(items)) == Some(content(end))
            &&& stands_at(g, end.data, last_audio(as_chunks(items)))
            &&& end.container == w.container
            &&& but_sizes(bodies(g, end.chunks)) == as_chunks(items)
        },
{
    assert forall|i: int| 0 <= i < items.len() implies #[trigger] says_its_size(
        items,
        i,
        v.data_size_64,
    ) by {
        assert(proper(items[i], is_wide(w)));
        lemma_body_fits(items, i);
    }
    assert(items.take(0) =~= Seq::<Item>::empty());
    assert(as_chunks(items.take(0)) =~= Seq::<(Seq<u8>, Seq<u8>)>::empty());
    assert(at_chunk(g, from, items, 0, v));
    lemma_written_scans(g, from, items, 0, v);
}

/// Whether the changes can be saved into the file `f`: it can be read, they
/// are ones that a file can hold, the new file is not too big for its sizes,
/// and its sample data is found where it was put.
pub open spec fn can_be_saved(f: Seq<u8>, changes: ChangesView) -> bool {
    &&& f.len() <= u64::MAX
    &&& wav_of(f) matches Ok(w) && {
        let held = all_held(f, w.chunks);
        let s = sources_of(w, held, changes);
        &&& plan_of(w, held, changes) is Ok
        &&& can_be_kept(s)
        &&& audio_is_found(w, new_chunks(s, f, w.chunks, held))
    }
}

/// The new file, as it was laid out and as it reads.
pub proof fn lemma_saved(f: Seq<u8>, changes: ChangesView)
    requires
        can_be_saved(f, changes),
    ensures
        ({
            let w = wav_of(f)->Ok_0;
            let held = all_held(f, w.chunks);
            let items = new_chunks(sources_of(w, held, changes), f, w.chunks, held);
            &&& saved_of(f, changes) matches Ok(g) && wav_of(g) matches Ok(c) && {
                &&& but_sizes(bodies(g, c.chunks)) == as_chunks(items)
                &&& c.sample_rate == w.sample_rate
                &&& c.bext == match changes.bext {
                    Some(b) => bext_of(b),
                    None => w.bext,
                }
                &&& c.ixml == match changes.ixml {
                    Some(t) => Some(trim_of(t)),
                    None => w.ixml,
                }
                &&& c.info == match changes.info {
                    Some(i) => i,
                    None => w.info,
                }
                &&& c.cues == match changes.markers {
                    Some(m) => Some(m),
                    None => w.cues,
                }
            }
        }),
{
    reveal(plan_of);
    reveal(check_of);
    let w = wav_of(f)->Ok_0;
    let held = all_held(f, w.chunks);
    let s = sources_of(w, held, changes);
    let items = new_chunks(s, f, w.chunks, held);
    lemma_old_file(f, w);
    lemma_last_audio(f, w.chunks);
    assert(s.has_bext == has_chunk(w.chunks, BEXT@));
    assert forall|i: int| 0 <= i < w.chunks.len() implies (#[trigger] held[i]).kind == list_type_of(
        f,
        w.chunks[i],
    ) by {}
    lemma_new_file_says(f, s, w.chunks, held);
    lemma_new_chunks_are_proper(s, f, w.chunks, held);
    lemma_body_laid(f, w, held, changes);
    let body = body_of(w, held, changes);
    lemma_body_within(w, held, changes, f.len() as int);
    lemma_rendered_len(f, body);
    let total = header_len(w) + pieces_len(body);
    let head = seq![PieceView::Bytes(header_of(w, total))];
    lemma_rendered_add(f, head, body);
    assert(rendered(f, Seq::<PieceView>::empty()) =~= Seq::<u8>::empty());
    assert(head.drop_last() =~= Seq::<PieceView>::empty());
    assert(rendered(f, head) =~= header_of(w, total));
    let g = rendered(f, plan_of(w, held, changes)->Ok_0);
    lemma_header_len(w, total);
    assert(g.len() == total);
    let v = lemma_new_header(g, w, laid(items));
    lemma_new_file(w, items, g, header_len(w), v);
    lemma_lists_say_what_is_meant(w, held, changes);
    lemma_ixml_is_trimmed(bodies(f, w.chunks));
    if let Some(t) = changes.ixml {
        lemma_text_without_nul(t);
    }
    let end = scanned(g, scan_start(g.len() as u64))->Ok_0;
    assert(end.format is Some && end.data is Some);
    let c = wav_of(g)->Ok_0;
    assert(audio(f, w) == audio(g, c));
    assert(check_of(w, c, true, changes) is Ok);
}

/// A file that was saved has the same format, the same audio to the byte,
/// and reads as the changes meant it to, with everything else as it was.
pub proof fn what_was_saved_reads_as_meant(f: Seq<u8>, changes: ChangesView)
    requires
        f.len() <= u64::MAX,
        saved_of(f, changes) is Ok,
    ensures
        wav_of(f) is Ok,
        wav_of(saved_of(f, changes)->Ok_0) is Ok,
        ({
            let w = wav_of(f)->Ok_0;
            let g = saved_of(f, changes)->Ok_0;
            let c = wav_of(g)->Ok_0;
            &&& c.container == w.container
            &&& c.sample_rate == w.sample_rate
            &&& c.channels == w.channels
            &&& c.kind == w.kind
            &&& audio(g, c) == audio(f, w)
            &&& changes.markers matches Some(m) ==> c.cues == Some(m)
            &&& changes.markers is None ==> c.cues == w.cues
            &&& changes.info matches Some(i) ==> c.info == i
            &&& changes.info is None ==> c.info == w.info
            &&& changes.ixml matches Some(t) ==> c.ixml == Some(trim_of(t))
            &&& changes.ixml is None ==> c.ixml == w.ixml
            &&& changes.bext matches Some(b) ==> (c.bext matches Some(x) && x.raw == b)
            &&& changes.bext is None ==> (c.bext is Some <==> w.bext is Some)
            &&& changes.bext is None && w.bext is Some ==> c.bext->0.raw == w.bext->0.raw
        }),
{
    reveal(check_of);
    let w = wav_of(f)->Ok_0;
    lemma_old_file(f, w);
    lemma_ixml_is_trimmed(bodies(f, w.chunks));
}

/// A save of changes that a file can hold succeeds, whatever file they are
/// saved into; what the new file reads as is then what was meant.
pub proof fn a_save_of_what_can_be_kept_succeeds(f: Seq<u8>, changes: ChangesView)
    requires
        can_be_saved(f, changes),
    ensures
        saved_of(f, changes) is Ok,
{
    lemma_saved(f, changes);
}

/// Whether a chunk is none that a save with these changes writes anew.
pub open spec fn stays(changes: ChangesView, id: Seq<u8>, body: Seq<u8>) -> bool {
    &&& id != DS64@
    &&& id == BEXT@ ==> changes.bext is None
    &&& id == IXML@ ==> changes.ixml is None
    &&& id == CUE@ ==> changes.markers is None
    &&& is_list(id, body, INFO@) ==> changes.info is None
    &&& is_list(id, body, ADTL@) ==> changes.markers is None
}

/// The chunks that a save with these changes does not write anew.
pub open spec fn staying(
    changes: ChangesView,
    chunks: Seq<(Seq<u8>, Seq<u8>)>,
) -> Seq<(Seq<u8>, Seq<u8>)>
    decreases chunks.len(),
{
    if chunks.len() == 0 {
        Seq::empty()
    } else if stays(changes, chunks.last().0, chunks.last().1) {
        staying(changes, chunks.drop_last()).push(chunks.last())
    } else {
        staying(changes, chunks.drop_last())
    }
}

proof fn lemma_staying_one(changes: ChangesView, items: Seq<Item>, x: Item)
    ensures
        staying(changes, as_chunks(items + seq![x])) == if stays(changes, x.id, x.body) {
            staying(changes, as_chunks(items)).push((x.id, x.body))
        } else {
            staying(changes, as_chunks(items))
        },
{
    let all = as_chunks(items + seq![x]);
    assert(all.drop_last() =~= as_chunks(items));
    assert(all.last() == (x.id, x.body));
}

/// New chunks are written anew.
proof fn lemma_new_do_not_stay(s: Sources, items: Seq<Item>)
    ensures
        staying(s.changes, as_chunks(items + new_bext(s))) == staying(s.changes, as_chunks(items)),
        staying(s.changes, as_chunks(items + new_ixml(s))) == staying(s.changes, as_chunks(items)),
        staying(s.changes, as_chunks(items + new_info(s))) == staying(s.changes, as_chunks(items)),
        staying(s.changes, as_chunks(items + new_marks(s))) == staying(s.changes, as_chunks(items)),
        items + Seq::<Item>::empty() == items,
{
    lemma_ids();
    assert(items + Seq::<Item>::empty() =~= items);
    if let Some(b) = s.changes.bext {
        lemma_staying_one(s.changes, items, fresh(BEXT@, b));
    }
    if let Some(t) = s.changes.ixml {
        lemma_staying_one(s.changes, items, fresh(IXML@, encode_utf8(t)));
    }
    if let Some(e) = s.changes.info {
        let body = info_body_of(e, s.info);
        assert(body.take(4) =~= INFO@);
        lemma_staying_one(s.changes, items, fresh(LIST@, body));
    }
    if let Some(ms) = s.changes.markers {
        lemma_new_marks_do_not_stay(s, items);
    }
}

proof fn lemma_new_marks_do_not_stay(s: Sources, items: Seq<Item>)
    requires
        s.changes.markers is Some,
    ensures
        staying(s.changes, as_chunks(items + new_marks(s))) == staying(s.changes, as_chunks(items)),
{
    let (cue, adtl) = mark_bodies_of(s.changes.markers->0, s.marks);
    lemma_staying_one(s.changes, items, fresh(CUE@, cue));
    if let Some(body) = adtl {
        let more = items + seq![fresh(CUE@, cue)];
        assert(body.take(4) =~= ADTL@);
        lemma_staying_one(s.changes, more, fresh(LIST@, body));
        assert(more + seq![fresh(LIST@, body)] =~= items + seq![
            fresh(CUE@, cue),
            fresh(LIST@, body),
        ]);
    }
}

/// Where one chunk of the old file stood, it stands unless it is written
/// anew.
proof fn lemma_one_stays(f: Seq<u8>, s: Sources, l: LayoutView, items: Seq<Item>, c: ChunkView)
    requires
        c.start <= c.end <= f.len(),
    ensures
        ({
            let body = f.subrange(c.start as int, c.end as int);
            staying(s.changes, as_chunks(items + items_for(l, s, f, c, list_type_of(f, c))))
                == if stays(s.changes, c.id, body) {
                staying(s.changes, as_chunks(items)).push((c.id, body))
            } else {
                staying(s.changes, as_chunks(items))
            }
        }),
{
    lemma_ids();
    lemma_kind(f, c);
    lemma_new_do_not_stay(s, items);
    if c.id == DATA@ {
        let x = kept(f, c, s.wide);
        let before = added(s.has_bext || l.bext, new_bext(s));
        lemma_staying_one(s.changes, items + before, x);
        assert((items + before) + seq![x] =~= items + (before + seq![x]));
    } else {
        lemma_staying_one(s.changes, items, kept(f, c, false));
    }
}

proof fn lemma_others_stay(f: Seq<u8>, s: Sources, chunks: Seq<ChunkView>, held: Seq<HeldView>)
    requires
        chunks_within(chunks, f.len() as int),
        forall|i: int|
            0 <= i < chunks.len() ==> (#[trigger] held[i]).kind == list_type_of(f, chunks[i]),
    ensures
        staying(s.changes, as_chunks(items_laid(s, f, chunks, held))) == staying(
            s.changes,
            bodies(f, chunks),
        ),
    decreases chunks.len(),
{
    if chunks.len() == 0 {
        assert(bodies(f, chunks) =~= as_chunks(Seq::<Item>::empty()));
    } else {
        let rest = chunks.drop_last();
        let c = chunks.last();
        assert(chunks[chunks.len() - 1] == c);
        assert(bodies(f, chunks).drop_last() =~= bodies(f, rest));
        lemma_others_stay(f, s, rest, held);
        assert(held[chunks.len() - 1].kind == list_type_of(f, c));
        lemma_one_stays(f, s, chunks_laid(s, rest, held), items_laid(s, f, rest, held), c);
    }
}

proof fn lemma_staying_but_sizes(changes: ChangesView, chunks: Seq<(Seq<u8>, Seq<u8>)>)
    ensures
        staying(changes, but_sizes(chunks)) == staying(changes, chunks),
    decreases chunks.len(),
{
    if chunks.len() > 0 {
        lemma_staying_but_sizes(changes, chunks.drop_last());
        if chunks.last().0 != DS64@ {
            let b = but_sizes(chunks);
            assert(b.drop_last() =~= but_sizes(chunks.drop_last()));
        }
    }
}

/// Every chunk that a save does not write anew is in the new file as it was,
/// byte for byte and in its order.
pub proof fn a_save_leaves_other_chunks_as_they_were(f: Seq<u8>, changes: ChangesView)
    requires
        can_be_saved(f, changes),
    ensures
        saved_of(f, changes) matches Ok(g) && wav_of(g) matches Ok(c) && staying(
            changes,
            bodies(g, c.chunks),
        ) == staying(changes, bodies(f, wav_of(f)->Ok_0.chunks)),
{
    let w = wav_of(f)->Ok_0;
    let held = all_held(f, w.chunks);
    let s = sources_of(w, held, changes);
    lemma_old_file(f, w);
    lemma_saved(f, changes);
    assert forall|i: int| 0 <= i < w.chunks.len() implies (#[trigger] held[i]).kind == list_type_of(
        f,
        w.chunks[i],
    ) by {}
    lemma_others_stay(f, s, w.chunks, held);
    let l = chunks_laid(s, w.chunks, held);
    let items = items_laid(s, f, w.chunks, held);
    lemma_new_do_not_stay(s, items);
    let items1 = items + added(l.info, new_info(s));
    lemma_new_do_not_stay(s, items1);
    let items2 = items1 + added(l.markers, new_marks(s));
    lemma_new_do_not_stay(s, items2);
    let g = saved_of(f, changes)->Ok_0;
    lemma_staying_but_sizes(changes, bodies(g, wav_of(g)->Ok_0.chunks));
}

pub proof fn lemma_header_len(w: WavView, total: int)
    ensures
        header_of(w, total).len() == header_len(w),
{
    reveal(header_of);
    lemma_containers();
}

/// A Broadcast WAV chunk as it was read holds the bytes it was read from.
proof fn lemma_bext_is_held(chunks: Seq<(Seq<u8>, Seq<u8>)>)
    ensures
        content_of(chunks) matches Some(c) ==> c.bext matches Some(b) ==> bext_of(b.raw) == Some(b),
    decreases chunks.len(),
{
    if chunks.len() > 0 {
        reveal(Content::with);
        lemma_bext_is_held(chunks.drop_last());
    }
}

/// What is shown of a text of the Broadcast WAV chunk once it was saved: as
/// it was where it was not edited, else what was set, where that is plain.
pub open spec fn shows_again(new: Seq<char>, e: Seq<char>, saved: Seq<char>) -> bool {
    &&& e == saved ==> new == saved
    &&& e != saved && plain(crlf_of(e)) ==> new == lf_of(e)
}

/// What is shown of the start time once it was saved: as it was where it was
/// not edited, else the time of day that was set.
pub open spec fn start_shows_again(
    new: Seq<char>,
    e: Seq<char>,
    saved: Seq<char>,
    samples: Option<u64>,
    sample_rate: u32,
) -> bool {
    if e == saved {
        new == saved
    } else {
        match start_of(e, samples) {
            Ok(n) => new == if n > 0 {
                clock_of(n, sample_rate)
            } else {
                Seq::empty()
            },
            Err(_) => false,
        }
    }
}

/// The start time as it is shown.
spec fn shown_start(said: BextView, sample_rate: u32) -> Seq<char> {
    if said.time_reference > 0 {
        clock_of(said.time_reference, sample_rate)
    } else {
        Seq::empty()
    }
}

/// What is shown of a Broadcast WAV chunk.
proof fn lemma_shown_bext(w: WavView)
    ensures
        edits_of(w).bext.len() == 5,
        forall|k: int|
            0 <= k < 5 ==> #[trigger] edits_of(w).bext[k] == lf_of(
                field_texts(bext_said(w.bext))[k],
            ),
        edits_of(w).coding_history == lf_of(bext_said(w.bext).coding_history),
        edits_of(w).start == shown_start(bext_said(w.bext), w.sample_rate),
        edits_of(w).held.bext == match w.bext {
            Some(b) => Some(b.raw),
            None => None,
        },
{
    let none = Seq::<char>::empty();
    assert(lf_of(none) =~= none);
}

proof fn lemma_text_shows_again(read: Seq<char>, before: Seq<char>, e: Seq<char>, saved: Seq<char>)
    requires
        saved == lf_of(before),
        e == saved ==> read == before,
        e != saved && plain(crlf_of(e)) ==> read == crlf_of(e),
    ensures
        shows_again(lf_of(read), e, saved),
{
    written_line_ends_show_as_before(e);
}

/// What a Broadcast WAV chunk says once edits were written into it.
proof fn lemma_bext_says_again(
    e: EditsView,
    saved: EditsView,
    samples: Option<u64>,
    held: Option<BextView>,
    raw: Seq<u8>,
)
    requires
        held matches Some(b) ==> bext_of(b.raw) == Some(b),
        e.held.bext == match held {
            Some(b) => Some(b.raw),
            None => None,
        },
        bext_chunk_of(e, saved, samples) == Ok::<Seq<u8>, Seq<char>>(raw),
        forall|k: int|
            0 <= k < 5 ==> #[trigger] saved.bext[k] == lf_of(field_texts(bext_said(held))[k]),
        saved.coding_history == lf_of(bext_said(held).coding_history),
    ensures
        bext_of(raw) is Some,
        ({
            let read = bext_of(raw)->0;
            &&& forall|k: int|
                0 <= k < 5 ==> shows_again(
                    lf_of(#[trigger] field_texts(read)[k]),
                    e.bext[k],
                    saved.bext[k],
                )
            &&& shows_again(lf_of(read.coding_history), e.coding_history, saved.coding_history)
            &&& if e.start == saved.start {
                read.time_reference == bext_said(held).time_reference
            } else {
                start_of(e.start, samples) == Ok::<u64, Seq<char>>(read.time_reference)
            }
        }),
{
    untouched_bext_fields_read_as_before(e, saved, samples, held);
    written_bext_reads_back(e, saved, samples);
    let read = bext_of(raw)->0;
    let before = bext_said(held);
    assert forall|k: int| 0 <= k < 5 implies shows_again(
        lf_of(#[trigger] field_texts(read)[k]),
        e.bext[k],
        saved.bext[k],
    ) by {
        lemma_text_shows_again(
            field_texts(read)[k],
            field_texts(before)[k],
            e.bext[k],
            saved.bext[k],
        );
    }
    lemma_text_shows_again(
        read.coding_history,
        before.coding_history,
        e.coding_history,
        saved.coding_history,
    );
}

/// What is shown of the Broadcast WAV chunk once edits were saved.
proof fn lemma_bext_shows_again(
    w: WavView,
    c: WavView,
    e: EditsView,
    samples: Option<u64>,
    changes: ChangesView,
)
    requires
        w.bext matches Some(b) ==> bext_of(b.raw) == Some(b),
        e.held == edits_of(w).held,
        e.bext.len() == 5,
        changes_of(e, edits_of(w), samples) == Ok::<ChangesView, Seq<char>>(changes),
        c.sample_rate == w.sample_rate,
        c.bext == match changes.bext {
            Some(b) => bext_of(b),
            None => w.bext,
        },
    ensures
        ({
            let saved = edits_of(w);
            let new = edits_of(c);
            &&& forall|k: int|
                0 <= k < 5 ==> shows_again(#[trigger] new.bext[k], e.bext[k], saved.bext[k])
            &&& shows_again(new.coding_history, e.coding_history, saved.coding_history)
            &&& start_shows_again(new.start, e.start, saved.start, samples, w.sample_rate)
        }),
{
    let saved = edits_of(w);
    lemma_shown_bext(w);
    lemma_shown_bext(c);
    match changes.bext {
        Some(raw) => {
            assert(bext_chunk_of(e, saved, samples) == Ok::<Seq<u8>, Seq<char>>(raw));
            lemma_bext_says_again(e, saved, samples, w.bext, raw);
        },
        None => {
            assert(e.bext == saved.bext);
        },
    }
}

/// A field's value is trimmed.
proof fn lemma_leaves_trimmed(n: Node, label: Seq<char>)
    ensures
        forall|j: int|
            0 <= j < leaves_of(n, label).len() ==> trim_of(
                (#[trigger] leaves_of(n, label)[j]).value,
            ) == leaves_of(n, label)[j].value,
    decreases n, 0int,
{
    if n.children.len() == 0 {
        trimming_twice_is_trimming_once(n.text);
    } else {
        lemma_leaves_upto_trimmed(n.children, Some(label), n.children.len() as int);
    }
}

proof fn lemma_leaves_upto_trimmed(children: Seq<Node>, outer: Option<Seq<char>>, k: int)
    ensures
        forall|j: int|
            0 <= j < leaves_upto(children, outer, k).len() ==> trim_of(
                (#[trigger] leaves_upto(children, outer, k)[j]).value,
            ) == leaves_upto(children, outer, k)[j].value,
    decreases children, k,
{
    if 0 < k <= children.len() {
        lemma_leaves_upto_trimmed(children, outer, k - 1);
        let label = inside(outer, numbered_of(children, k - 1));
        lemma_leaves_trimmed(children[k - 1], label);
        let before = leaves_upto(children, outer, k - 1);
        let here = leaves_of(children[k - 1], label);
        assert forall|j: int| 0 <= j < (before + here).len() implies trim_of(
            (#[trigger] (before + here)[j]).value,
        ) == (before + here)[j].value by {
            if j < before.len() {
                assert((before + here)[j] == before[j]);
            } else {
                assert((before + here)[j] == here[j - before.len()]);
            }
        }
    }
}

/// Whether the document's fields are those of the file with other values,
/// which fit into memory, and a tag can be written for each that had no text.
pub open spec fn fields_can_be_set(e: EditsView, saved: EditsView) -> bool {
    &&& e.ixml.len() == saved.ixml.len()
    &&& forall|j: int| 0 <= j < e.ixml.len() ==> (#[trigger] e.ixml[j]).0 == saved.ixml[j].0
    &&& forall|j: int|
        0 <= j < e.ixml.len() && (#[trigger] e.ixml[j]).1 != saved.ixml[j].1
            && saved.held.ixml_spans[j].0 is Empty ==> unquoted(saved.held.ixml_spans[j].1)
    &&& document_text(saved.held.ixml).len() + written_for(
        saved.held.ixml_spans,
        e.ixml,
        saved.ixml,
        e.ixml.len() as int,
    ) <= usize::MAX
}

/// The document's fields show with the values that were set.
proof fn lemma_ixml_shows_again(w: WavView, c: WavView, e: EditsView)
    requires
        w.ixml matches Some(t) ==> trim_of(t) == t,
        e.held == edits_of(w).held,
        fields_can_be_set(e, edits_of(w)),
        ({
            let saved = edits_of(w);
            c.ixml == if e.ixml == saved.ixml {
                w.ixml
            } else {
                Some(
                    trim_of(
                        spliced(
                            document_text(e.held.ixml),
                            e.held.ixml_spans,
                            e.ixml,
                            saved.ixml,
                            fields_held(e, saved),
                        ),
                    ),
                )
            }
        }),
    ensures
        edits_of(c).ixml == e.ixml.map_values(
            |p: (Seq<char>, Seq<char>)| (p.0, trim_of(p.1)),
        ),
{
    let saved = edits_of(w);
    let set = e.ixml.map_values(|p: (Seq<char>, Seq<char>)| (p.0, trim_of(p.1)));
    match w.ixml {
        None => {
            assert(saved.ixml =~= Seq::empty());
            assert(e.ixml =~= saved.ixml);
            assert(edits_of(c).ixml =~= set);
        },
        Some(s) => {
            let a = fields_of(s);
            if let Some(root) = document_of(s) {
                lemma_leaves_upto_trimmed(root.children, None, root.children.len() as int);
            }
            assert forall|j: int| 0 <= j < a.len() implies saved.ixml[j] == (
                (#[trigger] a[j]).label,
                a[j].value,
            ) && saved.held.ixml_spans[j] == (a[j].span, a[j].name) && trim_of(a[j].value)
                == a[j].value by {}
            if e.ixml == saved.ixml {
                assert(edits_of(c).ixml =~= set);
            } else {
                let k = fields_held(e, saved);
                assert(k == a.len());
                let spans = e.held.ixml_spans;
                let t = spliced(s, spans, e.ixml, saved.ixml, k);
                edited_fields_read_as_set(s, spans, e.ixml, saved.ixml, k);
                lemma_trimmed(s);
                assert(trim_of(t) == t);
                let b = fields_of(t);
                assert(edits_of(c).ixml =~= set) by {
                    assert forall|j: int| 0 <= j < a.len() implies #[trigger] edits_of(c).ixml[j]
                        == set[j] by {
                        assert(b[j].label == a[j].label);
                        assert(e.ixml[j].0 == saved.ixml[j].0);
                    }
                }
            }
        },
    }
}

/// Edits that were saved show when the file is opened again: marks and texts
/// as they were set, and what was not edited as it was.
pub proof fn what_was_edited_shows_again(f: Seq<u8>, e: EditsView, samples: Option<u64>)
    requires
        wav_of(f) is Ok,
        e.held == edits_of(wav_of(f)->Ok_0).held,
        e.bext.len() == 5,
        changes_of(e, edits_of(wav_of(f)->Ok_0), samples) is Ok,
        can_be_saved(f, changes_of(e, edits_of(wav_of(f)->Ok_0), samples)->Ok_0),
    ensures
        ({
            let w = wav_of(f)->Ok_0;
            let saved = edits_of(w);
            &&& saved_of(f, changes_of(e, saved, samples)->Ok_0) matches Ok(g) && wav_of(
                g,
            ) matches Ok(c) && {
                let new = edits_of(c);
                &&& forall|k: int|
                    0 <= k < 5 ==> shows_again(#[trigger] new.bext[k], e.bext[k], saved.bext[k])
                &&& shows_again(new.coding_history, e.coding_history, saved.coding_history)
                &&& start_shows_again(new.start, e.start, saved.start, samples, w.sample_rate)
                &&& new.info == if e.info == saved.info {
                    saved.info
                } else {
                    shown_info(kept_info(e.info))
                }
                &&& e.ixml == saved.ixml ==> new.ixml == saved.ixml
                &&& fields_can_be_set(e, saved) ==> new.ixml == e.ixml.map_values(
                    |p: (Seq<char>, Seq<char>)| (p.0, trim_of(p.1)),
                )
                &&& e.markers != saved.markers ==> new.markers == sort_marks(
                    e.markers.map_values(|m: MarkerView| trimmed(m)),
                )
                &&& e.markers == saved.markers && (w.cues is Some || e.ixml == saved.ixml)
                    ==> new.markers == saved.markers
            }
        }),
{
    let w = wav_of(f)->Ok_0;
    let saved = edits_of(w);
    let changes = changes_of(e, saved, samples)->Ok_0;
    lemma_old_file(f, w);
    lemma_bext_is_held(bodies(f, w.chunks));
    lemma_saved(f, changes);
    let c = wav_of(saved_of(f, changes)->Ok_0)->Ok_0;
    lemma_bext_shows_again(w, c, e, samples, changes);
    lemma_ixml_is_trimmed(bodies(f, w.chunks));
    if fields_can_be_set(e, saved) {
        lemma_ixml_shows_again(w, c, e);
    }
}

/// Marks that stand in their order are sorted.
proof fn lemma_in_order(ms: Seq<MarkerView>)
    requires
        forall|i: int, j: int|
            0 <= i < j < ms.len() ==> before(#[trigger] ms[i], #[trigger] ms[j]),
    ensures
        sort_marks(ms) == ms,
    decreases ms.len(),
{
    if ms.len() > 0 {
        let rest = ms.drop_last();
        assert forall|i: int, j: int| 0 <= i < j < rest.len() implies before(
            #[trigger] rest[i],
            #[trigger] rest[j],
        ) by {
            assert(rest[i] == ms[i] && rest[j] == ms[j]);
        }
        lemma_in_order(rest);
        if rest.len() > 0 {
            assert(before(ms[ms.len() - 2], ms[ms.len() - 1]));
            assert(rest.last() == ms[ms.len() - 2]);
        }
        assert(rest.push(ms.last()) =~= ms);
    }
}

/// Whether `cue` is the one chunk that holds cue points, and `adtl`, where
/// there is one, the one that names them.
pub open spec fn holds_marks(
    chunks: Seq<(Seq<u8>, Seq<u8>)>,
    cue: Seq<u8>,
    adtl: Option<Seq<u8>>,
) -> bool {
    &&& exists|c: int|
        0 <= c < chunks.len() && #[trigger] chunks[c] == (CUE@, cue) && forall|i: int|
            0 <= i < chunks.len() && i != c ==> (#[trigger] chunks[i]).0 != CUE@
    &&& match adtl {
        Some(body) => exists|a: int|
            0 <= a < chunks.len() && #[trigger] chunks[a] == (LIST@, body) && forall|i: int|
                0 <= i < chunks.len() && i != a ==> !is_list(
                    (#[trigger] chunks[i]).0,
                    chunks[i].1,
                    ADTL@,
                ),
        None => forall|i: int|
            0 <= i < chunks.len() ==> !is_list((#[trigger] chunks[i]).0, chunks[i].1, ADTL@),
    }
}

/// What one chunk says of cue points and of their names.
proof fn lemma_marks_said(c: Content, id: Seq<u8>, body: Seq<u8>)
    requires
        c.with(id, body) is Some,
    ensures
        ({
            let d = c.with(id, body)->0;
            &&& d.points == if id == CUE@ {
                Some(
                    match c.points {
                        Some(p) => p + cue_of(front(body)),
                        None => cue_of(front(body)),
                    },
                )
            } else {
                c.points
            }
            &&& d.adtl == if is_list(id, body, ADTL@) {
                c.adtl + subchunks_of(front(body).skip(4))
            } else {
                c.adtl
            }
        }),
{
    reveal(Content::with);
    lemma_ids();
    if body.len() >= 4 {
        assert(front(body).take(4) =~= body.take(4));
    }
    assert(INFO@ != ADTL@) by {
        assert(INFO@[0] != ADTL@[0]);
    }
}

proof fn lemma_points_of_one(chunks: Seq<(Seq<u8>, Seq<u8>)>, c: int)
    requires
        content_of(chunks) is Some,
        -1 <= c < chunks.len(),
        c >= 0 ==> chunks[c].0 == CUE@,
        forall|i: int| 0 <= i < chunks.len() && i != c ==> (#[trigger] chunks[i]).0 != CUE@,
    ensures
        (content_of(chunks)->0).points == if c >= 0 {
            Some(cue_of(front(chunks[c].1)))
        } else {
            None
        },
    decreases chunks.len(),
{
    if chunks.len() > 0 {
        let rest = chunks.drop_last();
        let n = chunks.len() - 1;
        assert(chunks.last() == chunks[n]);
        assert forall|i: int| 0 <= i < rest.len() && i != c implies (#[trigger] rest[i]).0
            != CUE@ by {
            assert(rest[i] == chunks[i]);
        }
        lemma_points_of_one(
            rest,
            if c == n {
                -1
            } else {
                c
            },
        );
        lemma_marks_said(content_of(rest)->0, chunks.last().0, chunks.last().1);
    }
}

proof fn lemma_adtl_of_one(chunks: Seq<(Seq<u8>, Seq<u8>)>, a: int)
    requires
        content_of(chunks) is Some,
        -1 <= a < chunks.len(),
        a >= 0 ==> is_list(chunks[a].0, chunks[a].1, ADTL@),
        forall|i: int|
            0 <= i < chunks.len() && i != a ==> !is_list(
                (#[trigger] chunks[i]).0,
                chunks[i].1,
                ADTL@,
            ),
    ensures
        (content_of(chunks)->0).adtl == if a >= 0 {
            subchunks_of(front(chunks[a].1).skip(4))
        } else {
            Seq::empty()
        },
    decreases chunks.len(),
{
    if chunks.len() > 0 {
        let rest = chunks.drop_last();
        let n = chunks.len() - 1;
        assert(chunks.last() == chunks[n]);
        assert forall|i: int| 0 <= i < rest.len() && i != a implies !is_list(
            (#[trigger] rest[i]).0,
            rest[i].1,
            ADTL@,
        ) by {
            assert(rest[i] == chunks[i]);
        }
        lemma_adtl_of_one(
            rest,
            if a == n {
                -1
            } else {
                a
            },
        );
        lemma_marks_said(content_of(rest)->0, chunks.last().0, chunks.last().1);
        if a == n {
            let said = subchunks_of(front(chunks[a].1).skip(4));
            assert(Seq::<(Seq<u8>, Seq<u8>)>::empty() + said =~= said);
        }
    }
}

/// Any file whose one chunk of cue points and one list of their names are
/// those written for `ms` shows `ms`, whatever was stored before.
pub proof fn a_file_shows_the_marks_written_into_it(
    f: Seq<u8>,
    ms: Seq<MarkerView>,
    st: StoredMarksView,
)
    requires
        f.len() <= u64::MAX,
        wav_of(f) is Ok,
        holds_marks(
            bodies(f, wav_of(f)->Ok_0.chunks),
            mark_bodies_of(ms, st).0,
            mark_bodies_of(ms, st).1,
        ),
        mark_bodies_of(ms, st).0.len() <= METADATA_MAX,
        mark_bodies_of(ms, st).1 matches Some(body) ==> body.len() <= METADATA_MAX,
        forall|i: int|
            0 <= i < ms.len() ==> (#[trigger] ms[i]).frame <= u32::MAX && ms[i].length <= u32::MAX
                && plain(ms[i].label) && plain(ms[i].note),
        forall|i: int, j: int|
            0 <= i < j < ms.len() ==> (#[trigger] ms[i]).id != (#[trigger] ms[j]).id,
        st.whole(),
    ensures
        wav_of(f)->Ok_0.cues == Some(sort_marks(ms)),
        (forall|i: int, j: int|
            0 <= i < j < ms.len() ==> before(#[trigger] ms[i], #[trigger] ms[j])) ==> wav_of(
            f,
        )->Ok_0.cues == Some(ms),
{
    let w = wav_of(f)->Ok_0;
    let chunks = bodies(f, w.chunks);
    let (cue, adtl) = mark_bodies_of(ms, st);
    let all = adtl_entries(ms, st);
    lemma_old_file(f, w);
    let at = choose|c: int|
        0 <= c < chunks.len() && #[trigger] chunks[c] == (CUE@, cue) && forall|i: int|
            0 <= i < chunks.len() && i != c ==> (#[trigger] chunks[i]).0 != CUE@;
    assert(front(cue) =~= cue);
    lemma_points_of_one(chunks, at);
    match adtl {
        Some(body) => {
            let a = choose|a: int|
                0 <= a < chunks.len() && #[trigger] chunks[a] == (LIST@, body) && forall|i: int|
                    0 <= i < chunks.len() && i != a ==> !is_list(
                        (#[trigger] chunks[i]).0,
                        chunks[i].1,
                        ADTL@,
                    );
            assert(front(body) =~= body);
            assert(body.take(4) =~= ADTL@);
            lemma_adtl_of_one(chunks, a);
        },
        None => {
            lemma_adtl_of_one(chunks, -1);
        },
    }
    lemma_all_points(ms, st.points);
    assert forall|i: int| 0 <= i < all.len() implies (#[trigger] all[i]).1.len() <= u32::MAX by {
        lemma_entry_fits(all, i);
    }
    written_marks_read_back(ms, st);
    if forall|i: int, j: int|
        0 <= i < j < ms.len() ==> before(#[trigger] ms[i], #[trigger] ms[j]) {
        lemma_in_order(ms);
    }
}

} // verus!
