//! How a file is walked, chunk by chunk, and which chunk says what.

use crate::bytes::{le4, le8, lemma_le4, lemma_le8, u32_le, u64_le};
use crate::roundtrip::{
    added, as_chunks, bodies, but_sizes, can_be_saved, content_of, front, has_chunk, items_for,
    items_laid, last_data, lemma_containers, lemma_header_len, lemma_old_file,
    lemma_rendered_add, lemma_rendered_len, lemma_saved, new_chunks, new_info, new_ixml, new_marks,
    Content,
};
use crate::save::{
    all_held, body_of, check_of, chunks_laid, header_len, header_of, lemma_body_within, magic_of, most_bytes,
    pieces_len, plan_of, rendered, saved_of, sources_of, ChangesView, HeldView, LayoutView,
    PieceView, Sources,
};
use crate::text::trim_of;
use crate::wav::{
    bext_of, fmt_of, lemma_fed_stays, scan_start, scanned, text_of, wav_of, ChunkView, Fault,
    Format, Phase, ScannerView, WavView, BEXT, BW64, CUE, DATA, DS64, FMT, IXML, LIST, RF64, RIFF, WAVE,
};
use vstd::prelude::*;

verus! {

/// Whether chunks stand one behind another in the file `f`: the first behind
/// its header, each with its id and its size before it, and at an even
/// distance from the one before.
pub open spec fn one_behind_another(f: Seq<u8>, chunks: Seq<ChunkView>) -> bool {
    &&& chunks.len() > 0 ==> chunks[0].start == 20
    &&& forall|i: int| 0 <= i < chunks.len() ==> stands_behind_its_header(f, #[trigger] chunks[i])
    &&& forall|i: int, j: int|
        0 <= i < chunks.len() && j == i + 1 && j < chunks.len() ==> follows(
            #[trigger] chunks[i],
            #[trigger] chunks[j],
        )
}

/// Whether a chunk has its id and its size before it. Only sample data can be
/// of another size: where none is said, or where the size is said elsewhere.
/// What goes past the end of the file is cut there.
pub open spec fn stands_behind_its_header(f: Seq<u8>, c: ChunkView) -> bool {
    let said = u32_le(f, c.start - 4);
    &&& 20 <= c.start <= c.end <= f.len()
    &&& c.id == f.subrange(c.start - 8, c.start - 4)
    &&& c.end < f.len() && !(c.id == DATA@ && (said == 0 || said == 0xFFFF_FFFF)) ==> c.end - c.start
        == said
    &&& c.end == f.len() && !(c.id == DATA@ && (said == 0 || said == 0xFFFF_FFFF)) ==> c.end
        - c.start <= said
    &&& c.id == DATA@ && said == 0 ==> c.end == f.len()
}

/// Whether one chunk comes right behind another, which takes an even number of
/// bytes.
pub open spec fn follows(a: ChunkView, b: ChunkView) -> bool {
    b.start == a.end + (a.end - a.start) % 2 + 8
}

spec fn on_its_way(f: Seq<u8>, v: ScannerView) -> bool {
    &&& one_behind_another(f, v.chunks)
    &&& v.chunks.len() == 0 ==> v.pos == 12
    &&& v.chunks.len() > 0 ==> {
        let c = v.chunks.last();
        v.pos == c.end + (c.end - c.start) % 2 || (c.end == f.len() && v.pos >= f.len())
    }
}

proof fn lemma_header_walks(f: Seq<u8>, v: ScannerView)
    requires
        v.wf(),
        v.len == f.len(),
        v.phase == Phase::Header,
        on_its_way(f, v),
    ensures
        ({
            let (at, count) = v.wants();
            on_its_way(f, v.header(f.subrange(at, at + count)))
        }),
{
    reveal(ScannerView::header);
    let (at, count) = v.wants();
    let b = f.subrange(at, at + count);
    let next = v.header(b);
    if b.len() >= 8 {
        let c = next.chunks.last();
        assert(at == v.pos);
        assert(b.len() == 8);
        assert(b[4] == f[v.pos + 4] && b[5] == f[v.pos + 5] && b[6] == f[v.pos + 6] && b[7]
            == f[v.pos + 7]);
        assert(u32_le(b, 4) == u32_le(f, v.pos + 4));
        assert(b.take(4) =~= f.subrange(v.pos as int, v.pos + 4));
        assert(stands_behind_its_header(f, c));
        let (old, new) = (v.chunks, next.chunks);
        assert forall|i: int| 0 <= i < new.len() implies stands_behind_its_header(
            f,
            #[trigger] new[i],
        ) by {
            if i < old.len() {
                assert(new[i] == old[i]);
            }
        }
        assert forall|i: int, j: int|
            0 <= i < new.len() && j == i + 1 && j < new.len() implies follows(
            #[trigger] new[i],
            #[trigger] new[j],
        ) by {
            assert(new[i] == old[i]);
            if j < old.len() {
                assert(new[j] == old[j]);
            } else {
                assert(old.last() == old[i]);
            }
        }
        if old.len() > 0 {
            assert(new[0] == old[0]);
        }
    }
}

proof fn lemma_scan_walks(f: Seq<u8>, v: ScannerView)
    requires
        v.wf(),
        v.len == f.len(),
        v.phase != Phase::Head,
        on_its_way(f, v),
    ensures
        scanned(f, v) matches Ok(end) ==> one_behind_another(f, end.chunks),
    decreases v.len + 1 - v.pos, v.rank(),
{
    if v.phase != Phase::Done {
        let (at, count) = v.wants();
        let b = f.subrange(at, at + count);
        lemma_fed_stays(v, b);
        if v.phase == Phase::Header {
            lemma_header_walks(f, v);
        }
        match v.fed(b) {
            Ok(next) => {
                if v.phase == Phase::Body {
                    reveal(ScannerView::body);
                    assert(next.chunks == v.chunks && next.pos == v.pos);
                }
                lemma_scan_walks(f, next);
            },
            Err(_) => {},
        }
    }
}

/// The chunks that were found in a file stand one behind another, each behind
/// its own header.
pub proof fn chunks_stand_one_behind_another(f: Seq<u8>)
    requires
        f.len() <= u64::MAX,
    ensures
        wav_of(f) matches Ok(w) ==> one_behind_another(f, w.chunks) && f.subrange(8, 12) == WAVE@ && (
        w.container == "WAV"@ <==> f.take(4) == RIFF@),
{
    let start = scan_start(f.len() as u64);
    let (at, count) = start.wants();
    let b = f.subrange(at, at + count);
    lemma_fed_stays(start, b);
    match start.fed(b) {
        Ok(v) => {
            lemma_scan_walks(f, v);
            if wav_of(f) is Ok {
                lemma_old_file(f, wav_of(f)->Ok_0);
                lemma_container_stays(f, v);
                assert(f.subrange(8, 12) =~= b.subrange(8, 12));
                assert(f.take(4) =~= b.take(4));
                reveal_strlit("WAV");
                reveal_strlit("RF64");
                reveal_strlit("BW64");
                assert("WAV"@.len() != "RF64"@.len() && "WAV"@.len() != "BW64"@.len());
            }
        },
        Err(_) => {},
    }
}

proof fn lemma_container_stays(f: Seq<u8>, v: ScannerView)
    requires
        v.wf(),
        v.len == f.len(),
        v.phase != Phase::Head,
    ensures
        scanned(f, v) matches Ok(end) ==> end.container == v.container,
    decreases v.len + 1 - v.pos, v.rank(),
{
    if v.phase != Phase::Done {
        let (at, count) = v.wants();
        let b = f.subrange(at, at + count);
        lemma_fed_stays(v, b);
        reveal(ScannerView::header);
        reveal(ScannerView::body);
        match v.fed(b) {
            Ok(next) => {
                lemma_container_stays(f, next);
            },
            Err(_) => {},
        }
    }
}

/// Whether the format is what the last `fmt ` chunk says.
pub open spec fn format_by(c: Content, chunks: Seq<(Seq<u8>, Seq<u8>)>) -> bool {
    c.format matches Some(format) ==> exists|i: int|
        #[trigger] is_last(chunks, FMT@, i) && fmt_of(front(chunks[i].1)) == Ok::<
            Format,
            Seq<char>,
        >(format)
}

/// Whether the document is what the first `iXML` chunk holds.
pub open spec fn ixml_by(c: Content, chunks: Seq<(Seq<u8>, Seq<u8>)>) -> bool {
    match c.ixml {
        Some(text) => exists|i: int|
            #[trigger] is_first(chunks, IXML@, i) && text_of(front(chunks[i].1)) == text,
        None => forall|i: int| !#[trigger] has_id(chunks, IXML@, i),
    }
}

/// Whether the Broadcast WAV fields are those of the first `bext` chunk that is
/// long enough.
pub open spec fn bext_by(c: Content, chunks: Seq<(Seq<u8>, Seq<u8>)>) -> bool {
    match c.bext {
        Some(b) => exists|i: int|
            #[trigger] has_id(chunks, BEXT@, i) && bext_of(front(chunks[i].1)) == Some(b)
                && too_short_before(chunks, i),
        None => too_short_before(chunks, chunks.len() as int),
    }
}

/// Whether every `bext` chunk before `i` is too short.
pub open spec fn too_short_before(chunks: Seq<(Seq<u8>, Seq<u8>)>, i: int) -> bool {
    forall|j: int| j < i && #[trigger] has_id(chunks, BEXT@, j) ==> bext_of(front(chunks[j].1)) is None
}

/// Whether there are cue points exactly where there is a `cue ` chunk.
pub open spec fn points_by(c: Content, chunks: Seq<(Seq<u8>, Seq<u8>)>) -> bool {
    c.points is Some <==> exists|i: int| #[trigger] has_id(chunks, CUE@, i)
}

pub open spec fn has_id(chunks: Seq<(Seq<u8>, Seq<u8>)>, id: Seq<u8>, i: int) -> bool {
    0 <= i < chunks.len() && chunks[i].0 == id
}

pub open spec fn is_first(chunks: Seq<(Seq<u8>, Seq<u8>)>, id: Seq<u8>, i: int) -> bool {
    has_id(chunks, id, i) && forall|j: int| j < i ==> !#[trigger] has_id(chunks, id, j)
}

pub open spec fn is_last(chunks: Seq<(Seq<u8>, Seq<u8>)>, id: Seq<u8>, i: int) -> bool {
    has_id(chunks, id, i) && forall|j: int| j > i ==> !#[trigger] has_id(chunks, id, j)
}

proof fn lemma_ids_differ()
    ensures
        FMT@ != BEXT@,
        FMT@ != IXML@,
        FMT@ != CUE@,
        BEXT@ != IXML@,
        BEXT@ != CUE@,
        IXML@ != CUE@,
        LIST@ != FMT@,
        LIST@ != BEXT@,
        LIST@ != IXML@,
        LIST@ != CUE@,
{
    assert(FMT@[0] == 0x66 && BEXT@[0] == 0x62 && IXML@[0] == 0x69 && CUE@[0] == 0x63 && LIST@[0]
        == 0x4C);
}

/// One more chunk, and what it says besides.
spec fn one_more(
    a: Content,
    b: Content,
    rest: Seq<(Seq<u8>, Seq<u8>)>,
    chunks: Seq<(Seq<u8>, Seq<u8>)>,
) -> bool {
    &&& chunks.len() > 0
    &&& rest == chunks.drop_last()
    &&& a.with(chunks.last().0, chunks.last().1) == Some(b)
}

proof fn lemma_had(rest: Seq<(Seq<u8>, Seq<u8>)>, chunks: Seq<(Seq<u8>, Seq<u8>)>)
    requires
        chunks.len() > 0,
        rest == chunks.drop_last(),
    ensures
        forall|kind: Seq<u8>, i: int| #[trigger]
            has_id(chunks, kind, i) == (has_id(rest, kind, i) || (i == chunks.len() - 1
                && chunks.last().0 == kind)),
        forall|i: int| 0 <= i < rest.len() ==> #[trigger] rest[i] == chunks[i],
{
}

proof fn lemma_said_by(chunks: Seq<(Seq<u8>, Seq<u8>)>)
    requires
        content_of(chunks) is Some,
    ensures
        format_by(content_of(chunks)->0, chunks),
        ixml_by(content_of(chunks)->0, chunks),
        bext_by(content_of(chunks)->0, chunks),
        points_by(content_of(chunks)->0, chunks),
    decreases chunks.len(),
{
    if chunks.len() > 0 {
        let rest = chunks.drop_last();
        lemma_said_by(rest);
        let (a, b) = (content_of(rest)->0, content_of(chunks)->0);
        lemma_format_said(a, b, rest, chunks);
        lemma_ixml_said(a, b, rest, chunks);
        lemma_bext_said(a, b, rest, chunks);
        lemma_points_said(a, b, rest, chunks);
    }
}

proof fn lemma_format_said(
    a: Content,
    b: Content,
    rest: Seq<(Seq<u8>, Seq<u8>)>,
    chunks: Seq<(Seq<u8>, Seq<u8>)>,
)
    requires
        one_more(a, b, rest, chunks),
        format_by(a, rest),
    ensures
        format_by(b, chunks),
{
    lemma_had(rest, chunks);
    lemma_ids_differ();
    let k = chunks.len() - 1;
    let (id, body) = chunks.last();
    assert(chunks[k] == (id, body));
    reveal(Content::with);
    if b.format is Some {
        if id == FMT@ {
            assert(has_id(chunks, FMT@, k));
            assert(is_last(chunks, FMT@, k));
        } else {
            let i = choose|i: int|
                #[trigger] is_last(rest, FMT@, i) && fmt_of(front(rest[i].1)) == Ok::<
                    Format,
                    Seq<char>,
                >(a.format->0);
            assert(has_id(rest, FMT@, i));
            assert(is_last(chunks, FMT@, i));
        }
    }
}

proof fn lemma_ixml_said(
    a: Content,
    b: Content,
    rest: Seq<(Seq<u8>, Seq<u8>)>,
    chunks: Seq<(Seq<u8>, Seq<u8>)>,
)
    requires
        one_more(a, b, rest, chunks),
        ixml_by(a, rest),
    ensures
        ixml_by(b, chunks),
{
    lemma_had(rest, chunks);
    lemma_ids_differ();
    let k = chunks.len() - 1;
    let (id, body) = chunks.last();
    assert(chunks[k] == (id, body));
    reveal(Content::with);
    if b.ixml is Some {
        if a.ixml is Some {
            let i = choose|i: int|
                #[trigger] is_first(rest, IXML@, i) && text_of(front(rest[i].1)) == a.ixml->0;
            assert(has_id(rest, IXML@, i));
            assert(is_first(chunks, IXML@, i));
        } else {
            assert(has_id(chunks, IXML@, k));
            assert forall|j: int| j < k implies !#[trigger] has_id(chunks, IXML@, j) by {
                assert(!has_id(rest, IXML@, j));
            }
            assert(is_first(chunks, IXML@, k));
        }
    } else {
        assert forall|i: int| !#[trigger] has_id(chunks, IXML@, i) by {
            assert(!has_id(rest, IXML@, i));
        }
    }
}

proof fn lemma_bext_said(
    a: Content,
    b: Content,
    rest: Seq<(Seq<u8>, Seq<u8>)>,
    chunks: Seq<(Seq<u8>, Seq<u8>)>,
)
    requires
        one_more(a, b, rest, chunks),
        bext_by(a, rest),
    ensures
        bext_by(b, chunks),
{
    lemma_had(rest, chunks);
    lemma_ids_differ();
    let k = chunks.len() - 1;
    let (id, body) = chunks.last();
    assert(chunks[k] == (id, body));
    reveal(Content::with);
    if b.bext is Some {
        if a.bext is Some {
            let i = choose|i: int|
                #[trigger] has_id(rest, BEXT@, i) && bext_of(front(rest[i].1)) == Some(a.bext->0)
                    && too_short_before(rest, i);
            assert(has_id(chunks, BEXT@, i));
            assert(too_short_before(chunks, i));
        } else {
            assert(has_id(chunks, BEXT@, k));
            assert(too_short_before(rest, k));
            assert(too_short_before(chunks, k));
        }
    } else {
        assert(too_short_before(rest, k));
        assert(too_short_before(chunks, k + 1));
    }
}

proof fn lemma_points_said(
    a: Content,
    b: Content,
    rest: Seq<(Seq<u8>, Seq<u8>)>,
    chunks: Seq<(Seq<u8>, Seq<u8>)>,
)
    requires
        one_more(a, b, rest, chunks),
        points_by(a, rest),
    ensures
        points_by(b, chunks),
{
    lemma_had(rest, chunks);
    lemma_ids_differ();
    let k = chunks.len() - 1;
    let (id, body) = chunks.last();
    assert(chunks[k] == (id, body));
    reveal(Content::with);
    if a.points is Some {
        let i = choose|i: int| #[trigger] has_id(rest, CUE@, i);
        assert(has_id(chunks, CUE@, i));
    } else if id == CUE@ {
        assert(has_id(chunks, CUE@, k));
    } else if exists|i: int| #[trigger] has_id(chunks, CUE@, i) {
        let i = choose|i: int| #[trigger] has_id(chunks, CUE@, i);
        assert(has_id(rest, CUE@, i));
    }
}

/// What a file says of itself is taken from the chunks that say it, and the
/// sample data is the last chunk that holds any.
pub proof fn a_file_says_what_its_chunks_say(f: Seq<u8>)
    requires
        f.len() <= u64::MAX,
    ensures
        wav_of(f) matches Ok(w) ==> {
            let read = bodies(f, w.chunks);
            &&& exists|i: int|
                #[trigger] is_last(read, FMT@, i) && fmt_of(front(read[i].1)) == Ok::<
                    Format,
                    Seq<char>,
                >(Format { sample_rate: w.sample_rate, channels: w.channels, kind: w.kind })
            &&& exists|i: int|
                #[trigger] is_last(read, DATA@, i) && w.chunks[i].start == w.data.0 && w.chunks[i].end
                    == w.data.1
            &&& w.ixml matches Some(text) ==> exists|i: int|
                #[trigger] is_first(read, IXML@, i) && text_of(front(read[i].1)) == text
            &&& w.ixml is None ==> !exists|i: int| #[trigger] has_id(read, IXML@, i)
            &&& w.bext matches Some(b) ==> exists|i: int|
                #[trigger] has_id(read, BEXT@, i) && bext_of(front(read[i].1)) == Some(b)
                    && too_short_before(read, i)
            &&& w.bext is None ==> too_short_before(read, read.len() as int)
            &&& w.cues is Some <==> exists|i: int| #[trigger] has_id(read, CUE@, i)
        },
{
    if wav_of(f) is Ok {
        let w = wav_of(f)->Ok_0;
        lemma_old_file(f, w);
        let read = bodies(f, w.chunks);
        lemma_said_by(read);
        lemma_last_data(f, w.chunks);
    }
}

proof fn lemma_last_data(f: Seq<u8>, chunks: Seq<ChunkView>)
    ensures
        last_data(chunks) matches Some(d) ==> exists|i: int|
            #[trigger] is_last(bodies(f, chunks), DATA@, i) && chunks[i].start == d.0
                && chunks[i].end == d.1,
        last_data(chunks) is None ==> forall|i: int| !#[trigger] has_id(bodies(f, chunks), DATA@, i),
    decreases chunks.len(),
{
    let read = bodies(f, chunks);
    if chunks.len() > 0 {
        let k = chunks.len() - 1;
        let rest = chunks.drop_last();
        let before = bodies(f, rest);
        lemma_last_data(f, rest);
        assert(read[k].0 == chunks[k].id);
        assert forall|i: int| #[trigger] has_id(read, DATA@, i) == (has_id(before, DATA@, i) || (i
            == k && chunks[k].id == DATA@)) by {
            if 0 <= i < k {
                assert(read[i] == before[i]);
            }
        }
        if chunks[k].id == DATA@ {
            assert(has_id(read, DATA@, k));
            assert(is_last(read, DATA@, k));
        } else if last_data(rest) is Some {
            let d = last_data(rest)->0;
            let i = choose|i: int|
                #[trigger] is_last(before, DATA@, i) && rest[i].start == d.0 && rest[i].end == d.1;
            assert(has_id(before, DATA@, i));
            assert(rest[i] == chunks[i]);
            assert(is_last(read, DATA@, i));
        }
    }
}

/// A new file says how long it is: all but the first eight bytes of it. One
/// with wide sizes says so in its `ds64` chunk, along with the bytes and the
/// frames of its sample data.
pub proof fn a_new_file_says_how_long_it_is(f: Seq<u8>, changes: ChangesView)
    requires
        f.len() <= u64::MAX,
        saved_of(f, changes) is Ok,
    ensures
        ({
            let w = wav_of(f)->Ok_0;
            let g = saved_of(f, changes)->Ok_0;
            let frame = w.kind.width() * w.channels;
            &&& g.subrange(8, 12) == WAVE@
            &&& w.container == "WAV"@ ==> g.take(4) == RIFF@ && u32_le(g, 4) + 8 == g.len()
            &&& w.container != "WAV"@ ==> {
                &&& g.take(4) == RF64@ || g.take(4) == BW64@
                &&& u32_le(g, 4) == 0xFFFF_FFFF
                &&& g.subrange(12, 16) == DS64@ && u32_le(g, 16) == 28
                &&& u64_le(g, 20) + 8 == g.len()
                &&& u64_le(g, 28) == w.data.1 - w.data.0
                &&& u64_le(g, 36) == (w.data.1 - w.data.0) / (frame as int)
            }
        }),
{
    let w = wav_of(f)->Ok_0;
    let g = saved_of(f, changes)->Ok_0;
    let rest = lemma_new_file_begins(f, changes);
    lemma_old_file(f, w);
    crate::wav::chunks_lie_in_the_file(f);
    if w.container == "WAV"@ {
        lemma_narrow_sizes(w, g, rest);
    } else {
        lemma_wide_sizes(w, g, rest);
    }
}

proof fn lemma_new_file_begins(f: Seq<u8>, changes: ChangesView) -> (rest: Seq<u8>)
    requires
        f.len() <= u64::MAX,
        saved_of(f, changes) is Ok,
    ensures
        ({
            let w = wav_of(f)->Ok_0;
            let g = saved_of(f, changes)->Ok_0;
            &&& g == header_of(w, g.len() as int) + rest
            &&& g.len() <= most_bytes(w)
            &&& g.len() >= header_len(w)
            &&& header_of(w, g.len() as int).len() == header_len(w)
        }),
{
    reveal(plan_of);
    let w = wav_of(f)->Ok_0;
    let held = all_held(f, w.chunks);
    lemma_old_file(f, w);
    let body = body_of(w, held, changes);
    lemma_body_within(w, held, changes, f.len() as int);
    lemma_rendered_len(f, body);
    let total = header_len(w) + pieces_len(body);
    let head = seq![PieceView::Bytes(header_of(w, total))];
    lemma_rendered_add(f, head, body);
    assert(rendered(f, Seq::<PieceView>::empty()) =~= Seq::<u8>::empty());
    assert(head.drop_last() =~= Seq::<PieceView>::empty());
    assert(rendered(f, head) =~= header_of(w, total));
    lemma_header_len(w, total);
    rendered(f, body)
}

proof fn lemma_narrow_sizes(w: WavView, g: Seq<u8>, rest: Seq<u8>)
    requires
        w.container == "WAV"@,
        12 <= g.len() <= most_bytes(w),
        g == header_of(w, g.len() as int) + rest,
    ensures
        g.subrange(8, 12) == WAVE@,
        g.take(4) == RIFF@,
        u32_le(g, 4) + 8 == g.len(),
{
    reveal(header_of);
    lemma_containers();
    let n = (g.len() - 8) as u32;
    lemma_le4(n);
    let a = le4(n);
    assert(g =~= RIFF@ + a + WAVE@ + rest);
    assert(g[4] == a[0] && g[5] == a[1] && g[6] == a[2] && g[7] == a[3]);
    assert(g.take(4) =~= RIFF@);
    assert(g.subrange(8, 12) =~= WAVE@);
}

proof fn lemma_wide_sizes(w: WavView, g: Seq<u8>, rest: Seq<u8>)
    requires
        w.container == "RF64"@ || w.container == "BW64"@,
        w.data.0 <= w.data.1,
        w.channels > 0,
        48 <= g.len() <= u64::MAX,
        g == header_of(w, g.len() as int) + rest,
    ensures
        ({
            let frame = w.kind.width() * w.channels;
            &&& g.subrange(8, 12) == WAVE@
            &&& g.take(4) == RF64@ || g.take(4) == BW64@
            &&& u32_le(g, 4) == 0xFFFF_FFFF
            &&& g.subrange(12, 16) == DS64@ && u32_le(g, 16) == 28
            &&& u64_le(g, 20) + 8 == g.len()
            &&& u64_le(g, 28) == w.data.1 - w.data.0
            &&& u64_le(g, 36) == (w.data.1 - w.data.0) / (frame as int)
        }),
{
    reveal(header_of);
    lemma_containers();
    let m = magic_of(w.container);
    let d = w.data.1 - w.data.0;
    let frame = (w.kind.width() * w.channels) as int;
    assert(frame > 0) by (nonlinear_arith)
        requires
            frame == w.kind.width() * w.channels,
            w.kind.width() >= 1,
            w.channels > 0,
    ;
    let n = d / frame;
    assert(0 <= n <= d) by (nonlinear_arith)
        requires
            n == d / frame,
            d >= 0,
            frame > 0,
    ;
    lemma_le4(u32::MAX);
    lemma_le4(28);
    lemma_le8((g.len() - 8) as u64);
    lemma_le8(d as u64);
    lemma_le8(n as u64);
    let (a, b) = (le4(u32::MAX), le4(28));
    let (x, y, z) = (le8((g.len() - 8) as u64), le8(d as u64), le8(n as u64));
    let h = m + a + WAVE@ + DS64@ + b + x + y + z + le4(0);
    assert(header_of(w, g.len() as int) == h);
    lemma_wide_layout(m, a, b, x, y, z, le4(0) + rest);
    assert(g =~= m + a + WAVE@ + DS64@ + b + x + y + z + (le4(0) + rest));
    lemma_u64_at(g, 20, x);
    lemma_u64_at(g, 28, y);
    lemma_u64_at(g, 36, z);
    assert(m == RF64@ || m == BW64@);
}

proof fn lemma_wide_layout(
    m: Seq<u8>,
    a: Seq<u8>,
    b: Seq<u8>,
    x: Seq<u8>,
    y: Seq<u8>,
    z: Seq<u8>,
    rest: Seq<u8>,
)
    requires
        m.len() == 4,
        a.len() == 4,
        b.len() == 4,
        x.len() == 8,
        y.len() == 8,
        z.len() == 8,
    ensures
        ({
            let g = m + a + WAVE@ + DS64@ + b + x + y + z + rest;
            &&& g.take(4) == m
            &&& u32_le(g, 4) == u32_le(a, 0)
            &&& g.subrange(8, 12) == WAVE@
            &&& g.subrange(12, 16) == DS64@
            &&& u32_le(g, 16) == u32_le(b, 0)
            &&& g.subrange(20, 28) == x
            &&& g.subrange(28, 36) == y
            &&& g.subrange(36, 44) == z
        }),
{
    let g = m + a + WAVE@ + DS64@ + b + x + y + z + rest;
    assert(g.take(4) =~= m);
    assert(g.subrange(8, 12) =~= WAVE@);
    assert(g.subrange(12, 16) =~= DS64@);
    assert(g[4] == a[0] && g[5] == a[1] && g[6] == a[2] && g[7] == a[3]);
    assert(g[16] == b[0] && g[17] == b[1] && g[18] == b[2] && g[19] == b[3]);
    assert(g.subrange(20, 28) =~= x);
    assert(g.subrange(28, 36) =~= y);
    assert(g.subrange(36, 44) =~= z);
}

proof fn lemma_u64_at(g: Seq<u8>, at: int, x: Seq<u8>)
    requires
        0 <= at,
        at + 8 <= g.len(),
        x.len() == 8,
        g.subrange(at, at + 8) == x,
    ensures
        u64_le(g, at) == u64_le(x, 0),
{
    let p = g.subrange(at, at + 8);
    assert(p[0] == g[at] && p[1] == g[at + 1] && p[2] == g[at + 2] && p[3] == g[at + 3] && p[4]
        == g[at + 4] && p[5] == g[at + 5] && p[6] == g[at + 6] && p[7] == g[at + 7]);
}

/// A new file is kept only where it reads as it was meant: in the format and
/// with the audio of the old one, with what was changed as it was set, and with
/// everything else as it was.
pub proof fn a_file_that_came_out_wrong_is_not_kept(
    w: WavView,
    c: WavView,
    same_audio: bool,
    changes: ChangesView,
)
    ensures
        check_of(w, c, same_audio, changes) is Ok <==> {
            &&& c.container == w.container && c.sample_rate == w.sample_rate
            &&& c.channels == w.channels && c.kind == w.kind
            &&& same_audio
            &&& changes.bext matches Some(raw) ==> c.bext is Some && (c.bext->0).raw == raw
            &&& changes.bext is None ==> (c.bext is Some <==> w.bext is Some) && (c.bext is Some
                ==> (c.bext->0).raw == (w.bext->0).raw)
            &&& changes.markers matches Some(m) ==> c.cues == Some(m)
            &&& changes.markers is None ==> c.cues == w.cues
            &&& changes.info matches Some(info) ==> c.info == info
            &&& changes.info is None ==> c.info == w.info
            &&& changes.ixml matches Some(text) ==> c.ixml == Some(trim_of(text))
            &&& changes.ixml is None && w.ixml is None ==> c.ixml is None
            &&& changes.ixml is None && w.ixml is Some ==> c.ixml == Some(trim_of(w.ixml->0))
        },
{
    reveal(check_of);
}

/// A file without a format, or without sample data, cannot be read, and one
/// that does not start as a WAV file does is none.
pub proof fn a_file_needs_a_format_and_samples(f: Seq<u8>)
    requires
        f.len() <= u64::MAX,
    ensures
        f.len() < 12 ==> wav_of(f) == Err::<WavView, Fault>(Fault::NotWav),
        f.len() >= 12 && f.subrange(8, 12) != WAVE@ ==> wav_of(f) == Err::<WavView, Fault>(
            Fault::NotWav,
        ),
        f.len() >= 12 && f.take(4) != RIFF@ && f.take(4) != RF64@ && f.take(4) != BW64@ ==> wav_of(f)
            == Err::<WavView, Fault>(Fault::NotWav),
        wav_of(f) matches Ok(w) ==> has_chunk(w.chunks, FMT@) && has_chunk(w.chunks, DATA@),
        wav_of(f) matches Ok(w) ==> w.channels > 0 && w.sample_rate > 0,
{
    let start = scan_start(f.len() as u64);
    let (at, count) = start.wants();
    let b = f.subrange(at, at + count);
    lemma_fed_stays(start, b);
    if f.len() >= 12 {
        assert(b =~= f.take(12));
        assert(b.subrange(8, 12) =~= f.subrange(8, 12));
        assert(b.take(4) =~= f.take(4));
    }
    if wav_of(f) is Ok {
        let w = wav_of(f)->Ok_0;
        crate::wav::chunks_lie_in_the_file(f);
        a_file_says_what_its_chunks_say(f);
        let read = bodies(f, w.chunks);
        let i = choose|i: int|
            #[trigger] is_last(read, FMT@, i) && fmt_of(front(read[i].1)) == Ok::<
                Format,
                Seq<char>,
            >(Format { sample_rate: w.sample_rate, channels: w.channels, kind: w.kind });
        assert(has_id(read, FMT@, i));
        assert(read[i].0 == w.chunks[i].id);
        let j = choose|j: int|
            #[trigger] is_last(read, DATA@, j) && w.chunks[j].start == w.data.0 && w.chunks[j].end
                == w.data.1;
        assert(has_id(read, DATA@, j));
        assert(read[j].0 == w.chunks[j].id);
    }
}

/// The size of the sample data that the last `ds64` chunk of some says: eight
/// bytes behind as many others.
pub open spec fn wide_size(f: Seq<u8>, chunks: Seq<ChunkView>) -> Option<int>
    decreases chunks.len(),
{
    if chunks.len() == 0 {
        None
    } else if chunks.last().id == DS64@ {
        if chunks.last().end - chunks.last().start < 16 {
            None
        } else {
            Some(u64_le(f, chunks.last().start + 8))
        }
    } else {
        wide_size(f, chunks.drop_last())
    }
}

/// Whether sample data that gives no size of its own is as long as a `ds64`
/// chunk before it says, as far as the file goes.
pub open spec fn is_as_long_as_said(f: Seq<u8>, chunks: Seq<ChunkView>, i: int) -> bool {
    let c = chunks[i];
    c.id == DATA@ && u32_le(f, c.start - 4) == 0xFFFF_FFFF ==> match wide_size(
        f,
        chunks.take(i),
    ) {
        Some(n) => c.end - c.start == n || (c.end == f.len() && c.end - c.start < n),
        None => c.end - c.start == 0xFFFF_FFFF || (c.end == f.len() && c.end - c.start
            < 0xFFFF_FFFF),
    }
}

spec fn sized(f: Seq<u8>, v: ScannerView) -> bool {
    let read = if v.phase == Phase::Body {
        v.chunks.drop_last()
    } else {
        v.chunks
    };
    &&& wide_size(f, read) == match v.data_size_64 {
        Some(n) => Some(n as int),
        None => None,
    }
    &&& forall|i: int| 0 <= i < v.chunks.len() ==> #[trigger] is_as_long_as_said(f, v.chunks, i)
}

proof fn lemma_header_sized(f: Seq<u8>, v: ScannerView)
    requires
        v.wf(),
        v.len == f.len(),
        v.phase == Phase::Header,
        sized(f, v),
    ensures
        ({
            let (at, count) = v.wants();
            sized(f, v.header(f.subrange(at, at + count)))
        }),
{
    reveal(ScannerView::header);
    let (at, count) = v.wants();
    let b = f.subrange(at, at + count);
    let next = v.header(b);
    if b.len() >= 8 {
        let c = next.chunks.last();
        assert(b[4] == f[v.pos + 4] && b[5] == f[v.pos + 5] && b[6] == f[v.pos + 6] && b[7]
            == f[v.pos + 7]);
        assert(u32_le(b, 4) == u32_le(f, v.pos + 4));
        let (old, new) = (v.chunks, next.chunks);
        assert(new.drop_last() =~= old);
        assert(DS64@[1] == 0x73 && DATA@[1] == 0x61);
        assert forall|i: int| 0 <= i < new.len() implies #[trigger] is_as_long_as_said(f, new, i) by {
            if i < old.len() {
                assert(is_as_long_as_said(f, old, i));
                assert(new.take(i) =~= old.take(i));
            } else {
                assert(new.take(i) =~= old);
            }
        }
    }
}

proof fn lemma_scan_sized(f: Seq<u8>, v: ScannerView)
    requires
        v.wf(),
        v.len == f.len(),
        v.phase != Phase::Head,
        sized(f, v),
        v.phase == Phase::Body ==> v.reads(v.chunks.last().id),
    ensures
        scanned(f, v) matches Ok(end) ==> forall|i: int|
            0 <= i < end.chunks.len() ==> #[trigger] is_as_long_as_said(f, end.chunks, i),
    decreases v.len + 1 - v.pos, v.rank(),
{
    if v.phase != Phase::Done {
        let (at, count) = v.wants();
        let b = f.subrange(at, at + count);
        lemma_fed_stays(v, b);
        if v.phase == Phase::Header {
            lemma_header_sized(f, v);
            reveal(ScannerView::header);
        }
        match v.fed(b) {
            Ok(next) => {
                if v.phase == Phase::Body {
                    reveal(ScannerView::body);
                    let c = v.chunks.last();
                    assert(next.chunks == v.chunks);
                    if c.id == DS64@ && b.len() >= 16 {
                        assert(f.subrange(c.start + 8, c.start + 16) =~= b.subrange(8, 16));
                        lemma_u64_at(f, c.start + 8, b.subrange(8, 16));
                        lemma_u64_at(b, 8, b.subrange(8, 16));
                    }
                    lemma_ids_apart();
                }
                lemma_scan_sized(f, next);
            },
            Err(_) => {},
        }
    }
}

proof fn lemma_ids_apart()
    ensures
        DS64@ != FMT@,
        DS64@ != BEXT@,
        DS64@ != IXML@,
        DS64@ != CUE@,
        DS64@ != LIST@,
{
    assert(DS64@[0] == 0x64 && FMT@[0] == 0x66 && BEXT@[0] == 0x62 && IXML@[0] == 0x69 && CUE@[0]
        == 0x63 && LIST@[0] == 0x4C);
}

/// Sample data that is too long to give its size gives it in the `ds64` chunk
/// before it.
pub proof fn long_sample_data_gives_its_size_before(f: Seq<u8>)
    requires
        f.len() <= u64::MAX,
    ensures
        wav_of(f) matches Ok(w) ==> forall|i: int|
            0 <= i < w.chunks.len() ==> #[trigger] is_as_long_as_said(f, w.chunks, i),
{
    let start = scan_start(f.len() as u64);
    let (at, count) = start.wants();
    let b = f.subrange(at, at + count);
    lemma_fed_stays(start, b);
    match start.fed(b) {
        Ok(v) => {
            lemma_scan_sized(f, v);
        },
        Err(_) => {},
    }
}

/// Whether no sample data stands before the Broadcast WAV chunk.
pub open spec fn described_first(chunks: Seq<(Seq<u8>, Seq<u8>)>) -> bool {
    forall|j: int| #[trigger]
        has_id(chunks, DATA@, j) ==> exists|i: int| i < j && #[trigger] has_id(chunks, BEXT@, i)
}

proof fn lemma_described_add(a: Seq<(Seq<u8>, Seq<u8>)>, b: Seq<(Seq<u8>, Seq<u8>)>)
    requires
        described_first(a),
        (exists|i: int| #[trigger] has_id(a, BEXT@, i)) || described_first(b),
    ensures
        described_first(a + b),
{
    let all = a + b;
    assert forall|j: int| #[trigger] has_id(all, DATA@, j) implies exists|i: int|
        i < j && #[trigger] has_id(all, BEXT@, i) by {
        let k = a.len() as int;
        if j < k {
            assert(all[j] == a[j]);
            assert(has_id(a, DATA@, j));
            let i = choose|i: int| i < j && #[trigger] has_id(a, BEXT@, i);
            assert(all[i] == a[i]);
            assert(has_id(all, BEXT@, i));
        } else if exists|i: int| #[trigger] has_id(a, BEXT@, i) {
            let i = choose|i: int| #[trigger] has_id(a, BEXT@, i);
            assert(all[i] == a[i]);
            assert(has_id(all, BEXT@, i));
        } else {
            assert(all[j] == b[j - k]);
            assert(has_id(b, DATA@, j - k));
            let i = choose|i: int| i < j - k && #[trigger] has_id(b, BEXT@, i);
            assert(all[k + i] == b[i]);
            assert(has_id(all, BEXT@, k + i));
        }
    }
}

proof fn lemma_described_one(s: Sources, f: Seq<u8>, c: ChunkView, l: LayoutView, kind: Seq<u8>)
    requires
        s.changes.bext is Some,
        !s.has_bext,
        c.id != BEXT@,
    ensures
        ({
            let more = as_chunks(items_for(l, s, f, c, kind));
            &&& !l.bext ==> described_first(more)
            &&& l.chunk(s, c, kind).bext ==> l.bext || exists|i: int| #[trigger]
                has_id(more, BEXT@, i)
            &&& l.bext ==> l.chunk(s, c, kind).bext
        }),
{
    lemma_ids_differ();
    lemma_data_differs();
    let items = items_for(l, s, f, c, kind);
    let more = as_chunks(items);
    assert forall|i: int| 0 <= i < more.len() implies (#[trigger] more[i]).0 == items[i].id by {}
    if c.id == DATA@ && !l.bext {
        assert(items.len() == 2);
        assert(items[0].id == BEXT@);
        assert(has_id(more, BEXT@, 0));
        assert forall|j: int| #[trigger] has_id(more, DATA@, j) implies exists|i: int|
            i < j && #[trigger] has_id(more, BEXT@, i) by {
            assert(j == 1);
            assert(has_id(more, BEXT@, 0));
        }
    } else if !l.bext {
        assert forall|j: int| !#[trigger] has_id(more, DATA@, j) by {
            if has_id(more, DATA@, j) {
                assert(items[j].id == DATA@);
            }
        }
    }
}

proof fn lemma_data_differs()
    ensures
        DATA@ != BEXT@,
        DATA@ != IXML@,
        DATA@ != CUE@,
        DATA@ != LIST@,
        DATA@ != DS64@,
{
    assert(DATA@[0] == 0x64 && BEXT@[0] == 0x62 && IXML@[0] == 0x69 && CUE@[0] == 0x63 && LIST@[0]
        == 0x4C);
    assert(DATA@[1] == 0x61 && DS64@[1] == 0x73);
}

proof fn lemma_described(
    s: Sources,
    f: Seq<u8>,
    chunks: Seq<ChunkView>,
    held: Seq<HeldView>,
)
    requires
        s.changes.bext is Some,
        !s.has_bext,
        !has_chunk(chunks, BEXT@),
    ensures
        described_first(as_chunks(items_laid(s, f, chunks, held))),
        chunks_laid(s, chunks, held).bext ==> exists|i: int| #[trigger]
            has_id(as_chunks(items_laid(s, f, chunks, held)), BEXT@, i),
    decreases chunks.len(),
{
    if chunks.len() > 0 {
        let rest = chunks.drop_last();
        assert(!has_chunk(rest, BEXT@)) by {
            if has_chunk(rest, BEXT@) {
                let i = choose|i: int| 0 <= i < rest.len() && (#[trigger] rest[i]).id == BEXT@;
                assert(chunks[i].id == BEXT@);
            }
        }
        lemma_described(s, f, rest, held);
        let c = chunks.last();
        assert(chunks[chunks.len() - 1] == c);
        let l = chunks_laid(s, rest, held);
        let kind = held[chunks.len() - 1].kind;
        lemma_described_one(s, f, c, l, kind);
        let (x, y) = (items_laid(s, f, rest, held), items_for(l, s, f, c, kind));
        let (a, b) = (as_chunks(x), as_chunks(y));
        assert(items_laid(s, f, chunks, held) == x + y);
        assert(as_chunks(x + y) =~= a + b);
        lemma_described_add(a, b);
        let next = l.chunk(s, c, kind);
        assert(chunks_laid(s, chunks, held) == next);
        if next.bext {
            if l.bext {
                let i = choose|i: int| #[trigger] has_id(a, BEXT@, i);
                assert((a + b)[i] == a[i]);
                assert(has_id(as_chunks(items_laid(s, f, chunks, held)), BEXT@, i));
            } else {
                let i = choose|i: int| #[trigger] has_id(b, BEXT@, i);
                let k = a.len() + i;
                assert((a + b)[k] == b[i]);
                assert(has_id(as_chunks(items_laid(s, f, chunks, held)), BEXT@, k));
            }
        }
    } else {
        assert(!chunks_laid(s, chunks, held).bext);
    }
}

proof fn lemma_described_added(s: Sources, l: LayoutView)
    ensures
        described_first(
            as_chunks(
                added(l.info, new_info(s)) + added(l.markers, new_marks(s)) + added(
                    l.ixml,
                    new_ixml(s),
                ),
            ),
        ),
{
    lemma_data_differs();
    let (x, y) = (added(l.info, new_info(s)), added(l.markers, new_marks(s)));
    let z = added(l.ixml, new_ixml(s));
    let more = x + y + z;
    let b = as_chunks(more);
    assert forall|j: int| !#[trigger] has_id(b, DATA@, j) by {
        if has_id(b, DATA@, j) {
            assert(b[j].0 == more[j].id);
            if j < x.len() {
                assert(more[j] == x[j]);
                assert(x[j].id != DATA@);
            } else if j < x.len() + y.len() {
                assert(more[j] == y[j - x.len()]);
                assert(y[j - x.len()].id != DATA@);
            } else {
                assert(more[j] == z[j - x.len() - y.len()]);
                assert(z[j - x.len() - y.len()].id != DATA@);
            }
        }
    }
}

proof fn lemma_described_new(
    s: Sources,
    f: Seq<u8>,
    chunks: Seq<ChunkView>,
    held: Seq<HeldView>,
)
    requires
        s.changes.bext is Some,
        !s.has_bext,
        !has_chunk(chunks, BEXT@),
    ensures
        described_first(as_chunks(new_chunks(s, f, chunks, held))),
{
    lemma_described(s, f, chunks, held);
    let l = chunks_laid(s, chunks, held);
    lemma_described_added(s, l);
    let first = items_laid(s, f, chunks, held);
    let more = added(l.info, new_info(s)) + added(l.markers, new_marks(s)) + added(
        l.ixml,
        new_ixml(s),
    );
    assert(new_chunks(s, f, chunks, held) =~= first + more);
    assert(as_chunks(first + more) =~= as_chunks(first) + as_chunks(more));
    lemma_described_add(as_chunks(first), as_chunks(more));
}

/// A Broadcast WAV chunk that a file did not have yet is written before its
/// sample data, where readers look for it.
pub proof fn a_new_description_comes_before_the_samples(f: Seq<u8>, changes: ChangesView)
    requires
        can_be_saved(f, changes),
        changes.bext is Some,
        !has_chunk(wav_of(f)->Ok_0.chunks, BEXT@),
    ensures
        saved_of(f, changes) matches Ok(g) && wav_of(g) matches Ok(c) && described_first(
            but_sizes(bodies(g, c.chunks)),
        ),
{
    let w = wav_of(f)->Ok_0;
    let held = all_held(f, w.chunks);
    let s = sources_of(w, held, changes);
    assert(described_first(as_chunks(new_chunks(s, f, w.chunks, held)))) by {
        lemma_described_new(s, f, w.chunks, held);
    }
    lemma_saved(f, changes);
}

} // verus!
