//! Saving edited metadata and markers into a WAV file, and renaming it.
//!
//! A save writes a whole new file next to the old file, reads it back, and
//! compares its audio with the old file's byte for byte; only then does the
//! new file take the old file's place, in one step. However a save ends,
//! the old file is either untouched or fully replaced.

use crate::bytes::{cut, le4, le8, put, put_u32, put_u64, same4};
use crate::path::{file_name, file_name_of, with_file_name, with_file_name_of};
use crate::rename::{reserved, reserved_of};
use crate::text::{chars, control, holds, is_control, same, string, trim, trim_of};
use crate::wav::{
    cue_points_of, info_body, info_body_of, mark_bodies, mark_bodies_of, marks, named,
    packed, parse, stored, subchunk, subchunks, subchunks_of, wav_of, zeros, Chunk,
    ChunkView, Fault, Marker, MarkerView, StoredMarks, StoredMarksView, Wav, WavView, ADTL,
    BEXT, BW64, CUE, DATA, DS64, INFO, IXML, LIST, RF64, RIFF, WAVE,
};
use vstd::prelude::*;
use vstd::slice::{slice_subrange, slice_to_vec};
use vstd::utf8::encode_utf8;

verus! {

/// What to write in place of each kind of chunk the editor handles. `None`
/// keeps the file's own, byte for byte.
#[derive(Debug, PartialEq)]
pub struct Changes {
    pub bext: Option<Vec<u8>>,
    pub ixml: Option<String>,
    /// An empty list drops the chunk.
    pub info: Option<Vec<([u8; 4], String)>>,
    /// Written as a `cue ` chunk, even when empty, so that removing every
    /// marker sticks.
    pub markers: Option<Vec<Marker>>,
}

#[verifier::ext_equal]
pub struct ChangesView {
    pub bext: Option<Seq<u8>>,
    pub ixml: Option<Seq<char>>,
    pub info: Option<Seq<(Seq<u8>, Seq<char>)>>,
    pub markers: Option<Seq<MarkerView>>,
}

impl View for Changes {
    type V = ChangesView;

    open spec fn view(&self) -> ChangesView {
        ChangesView {
            bext: match self.bext {
                Some(b) => Some(b@),
                None => None,
            },
            ixml: match self.ixml {
                Some(t) => Some(t@),
                None => None,
            },
            info: match self.info {
                Some(i) => Some(named(i@)),
                None => None,
            },
            markers: match self.markers {
                Some(m) => Some(marks(m@)),
                None => None,
            },
        }
    }
}

/// Changes that change nothing.
pub open spec fn no_changes() -> ChangesView {
    ChangesView { bext: None, ixml: None, info: None, markers: None }
}

impl Default for Changes {
    fn default() -> (r: Self)
        ensures
            r@ == no_changes(),
    {
        Changes { bext: None, ixml: None, info: None, markers: None }
    }
}

/// A piece of the new file: bytes of its own, or a stretch of the old file.
pub enum Piece {
    Bytes(Vec<u8>),
    Copy { start: u64, end: u64 },
}

#[verifier::ext_equal]
pub enum PieceView {
    Bytes(Seq<u8>),
    Copy(u64, u64),
}

impl View for Piece {
    type V = PieceView;

    open spec fn view(&self) -> PieceView {
        match self {
            Piece::Bytes(b) => PieceView::Bytes(b@),
            Piece::Copy { start, end } => PieceView::Copy(*start, *end),
        }
    }
}

pub open spec fn piece_views(s: Seq<Piece>) -> Seq<PieceView> {
    s.map_values(|p: Piece| p@)
}

/// Bytes in a piece.
pub open spec fn piece_len(p: PieceView) -> int {
    match p {
        PieceView::Bytes(b) => b.len() as int,
        PieceView::Copy(start, end) => end - start,
    }
}

/// Bytes in all of the pieces.
pub open spec fn pieces_len(s: Seq<PieceView>) -> int
    decreases s.len(),
{
    if s.len() == 0 {
        0
    } else {
        pieces_len(s.drop_last()) + piece_len(s.last())
    }
}

/// What a piece holds, given the old file.
pub open spec fn piece_bytes(f: Seq<u8>, p: PieceView) -> Seq<u8> {
    match p {
        PieceView::Bytes(b) => b,
        PieceView::Copy(start, end) => f.subrange(start as int, end as int),
    }
}

/// The new file, given the old file and the pieces of the new one.
pub open spec fn rendered(f: Seq<u8>, s: Seq<PieceView>) -> Seq<u8>
    decreases s.len(),
{
    if s.len() == 0 {
        Seq::empty()
    } else {
        rendered(f, s.drop_last()) + piece_bytes(f, s.last())
    }
}

/// Whether every piece copied lies in a file of `len` bytes.
pub open spec fn pieces_within(s: Seq<PieceView>, len: int) -> bool {
    forall|i: int|
        0 <= i < s.len() ==> match #[trigger] s[i] {
            PieceView::Copy(start, end) => start <= end <= len,
            PieceView::Bytes(_) => true,
        }
}

/// What of the old file a save has to look at: a `LIST` chunk's type, and
/// the body of each chunk that an edit may carry parts of over.
pub struct Held {
    /// The type of a `LIST`, else zeros.
    pub kind: [u8; 4],
    /// The body of a `cue ` chunk, an `INFO` list or an `adtl` list, else
    /// nothing.
    pub body: Vec<u8>,
}

#[verifier::ext_equal]
pub struct HeldView {
    pub kind: Seq<u8>,
    pub body: Seq<u8>,
}

impl View for Held {
    type V = HeldView;

    open spec fn view(&self) -> HeldView {
        HeldView { kind: self.kind@, body: self.body@ }
    }
}

pub open spec fn held_views(s: Seq<Held>) -> Seq<HeldView> {
    s.map_values(|h: Held| h@)
}

/// The type of the `LIST` at `c` in the file `f`, or zeros.
pub open spec fn list_type_of(f: Seq<u8>, c: ChunkView) -> Seq<u8> {
    if c.id == LIST@ && c.end - c.start >= 4 {
        f.subrange(c.start as int, c.start + 4)
    } else {
        zeros(4)
    }
}

/// Whether the body of a chunk with this id, and with this type where it is
/// a `LIST`, is looked at.
pub open spec fn body_is_held(id: Seq<u8>, kind: Seq<u8>) -> bool {
    id == CUE@ || (id == LIST@ && (kind == INFO@ || kind == ADTL@))
}

/// What a save looks at of the chunk at `c` in the file `f`.
pub open spec fn held_of(f: Seq<u8>, c: ChunkView) -> HeldView {
    let kind = list_type_of(f, c);
    HeldView {
        kind,
        body: if body_is_held(c.id, kind) {
            f.subrange(c.start as int, c.end as int)
        } else {
            Seq::empty()
        },
    }
}

/// What a save looks at of every chunk.
pub open spec fn all_held(f: Seq<u8>, chunks: Seq<ChunkView>) -> Seq<HeldView> {
    chunks.map_values(|c: ChunkView| held_of(f, c))
}

/// `b` from its fifth byte on.
pub open spec fn after_type(b: Seq<u8>) -> Seq<u8> {
    if b.len() < 4 {
        Seq::empty()
    } else {
        b.skip(4)
    }
}

/// The file's own `INFO` entries, so that whatever an edit left alone goes
/// back as it was stored.
pub open spec fn stored_info_of(
    chunks: Seq<ChunkView>,
    held: Seq<HeldView>,
) -> Seq<(Seq<u8>, Seq<u8>)>
    decreases chunks.len(),
{
    if chunks.len() == 0 {
        Seq::empty()
    } else {
        let n = chunks.len() - 1;
        let before = stored_info_of(chunks.drop_last(), held);
        if chunks[n].id == LIST@ && held[n].kind == INFO@ {
            before + subchunks_of(after_type(held[n].body))
        } else {
            before
        }
    }
}

/// The file's own marks.
pub open spec fn stored_marks_of(chunks: Seq<ChunkView>, held: Seq<HeldView>) -> StoredMarksView
    decreases chunks.len(),
{
    if chunks.len() == 0 {
        StoredMarksView { points: Seq::empty(), adtl: Seq::empty() }
    } else {
        let n = chunks.len() - 1;
        let before = stored_marks_of(chunks.drop_last(), held);
        if chunks[n].id == CUE@ {
            StoredMarksView { points: before.points + cue_points_of(held[n].body), ..before }
        } else if chunks[n].id == LIST@ && held[n].kind == ADTL@ {
            StoredMarksView {
                adtl: before.adtl + subchunks_of(after_type(held[n].body)),
                ..before
            }
        } else {
            before
        }
    }
}

/// The new file as far as it is laid out, and which of the edited chunks
/// are in it.
#[verifier::ext_equal]
pub struct LayoutView {
    pub pieces: Seq<PieceView>,
    pub bext: bool,
    pub ixml: bool,
    pub info: bool,
    pub markers: bool,
}

/// Everything that decides where the pieces of the new file go.
pub struct Sources {
    pub wide: bool,
    pub has_bext: bool,
    pub changes: ChangesView,
    pub info: Seq<(Seq<u8>, Seq<u8>)>,
    pub marks: StoredMarksView,
}

pub open spec fn copied(id: Seq<u8>, start: u64, end: u64, wide: bool) -> Seq<PieceView> {
    let size = if wide || end - start > u32::MAX {
        u32::MAX
    } else {
        (end - start) as u32
    };
    let body = seq![PieceView::Bytes(id + le4(size)), PieceView::Copy(start, end)];
    if (end - start) % 2 == 1 {
        body.push(PieceView::Bytes(seq![0u8]))
    } else {
        body
    }
}

impl LayoutView {
    pub open spec fn add_chunk(self, id: Seq<u8>, body: Seq<u8>) -> Seq<PieceView> {
        self.pieces.push(PieceView::Bytes(packed((id, body))))
    }

    pub open spec fn put_bext(self, s: Sources) -> LayoutView {
        if self.bext {
            self
        } else {
            match s.changes.bext {
                Some(b) => LayoutView { bext: true, pieces: self.add_chunk(BEXT@, b), ..self },
                None => LayoutView { bext: true, ..self },
            }
        }
    }

    pub open spec fn put_ixml(self, s: Sources) -> LayoutView {
        if self.ixml {
            self
        } else {
            match s.changes.ixml {
                Some(t) => LayoutView {
                    ixml: true,
                    pieces: self.add_chunk(IXML@, encode_utf8(t)),
                    ..self
                },
                None => LayoutView { ixml: true, ..self },
            }
        }
    }

    pub open spec fn put_info(self, s: Sources) -> LayoutView {
        if self.info {
            self
        } else {
            match s.changes.info {
                Some(entries) => if entries.len() == 0 {
                    LayoutView { info: true, ..self }
                } else {
                    LayoutView {
                        info: true,
                        pieces: self.add_chunk(LIST@, info_body_of(entries, s.info)),
                        ..self
                    }
                },
                None => LayoutView { info: true, ..self },
            }
        }
    }

    pub open spec fn put_marks(self, s: Sources) -> LayoutView {
        if self.markers {
            self
        } else {
            match s.changes.markers {
                Some(ms) => {
                    let (cue, adtl) = mark_bodies_of(ms, s.marks);
                    let pieces = self.add_chunk(CUE@, cue);
                    LayoutView {
                        markers: true,
                        pieces: match adtl {
                            Some(body) => pieces.push(PieceView::Bytes(packed((LIST@, body)))),
                            None => pieces,
                        },
                        ..self
                    }
                },
                None => LayoutView { markers: true, ..self },
            }
        }
    }

    pub open spec fn put_copy(self, c: ChunkView, wide: bool) -> LayoutView {
        LayoutView { pieces: self.pieces + copied(c.id, c.start, c.end, wide), ..self }
    }

    /// After the old file's chunk `c`. Every `INFO` list, `cue ` chunk and
    /// `adtl` list is read into the one edited, so the first takes the edit
    /// and the rest go; of `bext` and `iXML` only the first was read, and a
    /// second stays. A Broadcast WAV header belongs before the audio.
    pub open spec fn chunk(self, s: Sources, c: ChunkView, kind: Seq<u8>) -> LayoutView {
        if c.id == DS64@ {
            self
        } else if c.id == BEXT@ && s.changes.bext is Some && !self.bext {
            self.put_bext(s)
        } else if c.id == IXML@ && s.changes.ixml is Some && !self.ixml {
            self.put_ixml(s)
        } else if c.id == CUE@ && s.changes.markers is Some {
            self.put_marks(s)
        } else if c.id == LIST@ && kind == INFO@ && s.changes.info is Some {
            self.put_info(s)
        } else if c.id == LIST@ && kind == ADTL@ && s.changes.markers is Some {
            self
        } else if c.id == DATA@ {
            (if s.has_bext {
                self
            } else {
                self.put_bext(s)
            }).put_copy(c, s.wide)
        } else {
            self.put_copy(c, false)
        }
    }
}

/// The new file before any of it is laid out.
pub open spec fn blank() -> LayoutView {
    LayoutView { pieces: Seq::empty(), bext: false, ixml: false, info: false, markers: false }
}

/// The new file after the old file's chunks.
pub open spec fn chunks_laid(s: Sources, chunks: Seq<ChunkView>, held: Seq<HeldView>) -> LayoutView
    decreases chunks.len(),
{
    if chunks.len() == 0 {
        blank()
    } else {
        chunks_laid(s, chunks.drop_last(), held).chunk(
            s,
            chunks.last(),
            held[chunks.len() - 1].kind,
        )
    }
}

/// Whether a file has its sizes in 64 bits.
pub open spec fn is_wide(w: WavView) -> bool {
    w.container != "WAV"@
}

pub open spec fn sources_of(w: WavView, held: Seq<HeldView>, changes: ChangesView) -> Sources {
    Sources {
        wide: is_wide(w),
        has_bext: exists|i: int| 0 <= i < w.chunks.len() && (#[trigger] w.chunks[i]).id == BEXT@,
        changes,
        info: stored_info_of(w.chunks, held),
        marks: stored_marks_of(w.chunks, held),
    }
}

/// The pieces of the new file behind its header. Whatever the file had no
/// chunk of goes after the audio.
#[verifier::opaque]
pub open spec fn body_of(w: WavView, held: Seq<HeldView>, changes: ChangesView) -> Seq<PieceView> {
    let s = sources_of(w, held, changes);
    chunks_laid(s, w.chunks, held).put_info(s).put_marks(s).put_ixml(s).pieces
}

pub open spec fn magic_of(container: Seq<char>) -> Seq<u8> {
    if container == "RF64"@ {
        RF64@
    } else if container == "BW64"@ {
        BW64@
    } else {
        RIFF@
    }
}

/// Bytes in the new file's header.
pub open spec fn header_len(w: WavView) -> int {
    if is_wide(w) {
        48
    } else {
        12
    }
}

/// The new file's header, for a file of `total` bytes: past 4 GiB its sizes
/// go into a `ds64` chunk.
#[verifier::opaque]
pub open spec fn header_of(w: WavView, total: int) -> Seq<u8> {
    let data = w.data.1 - w.data.0;
    if is_wide(w) {
        magic_of(w.container) + le4(u32::MAX) + WAVE@ + DS64@ + le4(28) + le8(
            (total - 8) as u64,
        ) + le8(data as u64) + le8((data / (w.kind.width() * w.channels) as int) as u64) + le4(0)
    } else {
        magic_of(w.container) + le4((total - 8) as u32) + WAVE@
    }
}

/// The most bytes that the new file can have.
pub open spec fn most_bytes(w: WavView) -> int {
    if is_wide(w) {
        u64::MAX as int
    } else {
        u32::MAX + 8
    }
}

/// The pieces of the new file, or why there is none.
#[verifier::opaque]
pub open spec fn plan_of(
    w: WavView,
    held: Seq<HeldView>,
    changes: ChangesView,
) -> Result<Seq<PieceView>, Seq<char>> {
    let body = body_of(w, held, changes);
    let total = header_len(w) + pieces_len(body);
    if total > most_bytes(w) {
        Err("too big for a RIFF file"@)
    } else {
        Ok(seq![PieceView::Bytes(header_of(w, total))] + body)
    }
}

/// What is said of a new file that did not come out as meant.
pub open spec fn wrong_of(what: Seq<char>) -> Seq<char> {
    "the new file came out wrong ("@ + what + "), so nothing was changed"@
}

/// Whether a new file that reads as `c` is what was meant: its audio must be
/// the old file's to the byte, and each edited chunk must read as what was
/// meant to go in.
#[verifier::opaque]
pub open spec fn check_of(
    w: WavView,
    c: WavView,
    same_audio: bool,
    changes: ChangesView,
) -> Result<(), Seq<char>> {
    let bext = match changes.bext {
        Some(b) => Some(b),
        None => match w.bext {
            Some(b) => Some(b.raw),
            None => None,
        },
    };
    let markers = match changes.markers {
        Some(m) => Some(m),
        None => w.cues,
    };
    let info = match changes.info {
        Some(i) => i,
        None => w.info,
    };
    let ixml = match changes.ixml {
        Some(t) => Some(trim_of(t)),
        None => match w.ixml {
            Some(t) => Some(trim_of(t)),
            None => None,
        },
    };
    let back = match c.bext {
        Some(b) => Some(b.raw),
        None => None,
    };
    if c.container != w.container || c.sample_rate != w.sample_rate || c.channels != w.channels
        || c.kind != w.kind {
        Err(wrong_of("format"@))
    } else if !same_audio {
        Err(wrong_of("audio"@))
    } else if back != bext {
        Err(wrong_of("Broadcast WAV"@))
    } else if c.cues != markers {
        Err(wrong_of("markers"@))
    } else if c.info != info {
        Err(wrong_of("RIFF INFO"@))
    } else if c.ixml != ixml {
        Err(wrong_of("iXML"@))
    } else {
        Ok(())
    }
}

pub open spec fn fault_text(e: Fault) -> Seq<char> {
    match e {
        Fault::NotWav => "not a WAV file"@,
        Fault::Invalid(why) => why,
    }
}

/// The sample data of a file that reads as `w`.
pub open spec fn audio(f: Seq<u8>, w: WavView) -> Seq<u8> {
    f.subrange(w.data.0 as int, w.data.1 as int)
}

/// The file `f` with `changes` saved into it, or why it cannot be.
pub open spec fn saved_of(f: Seq<u8>, changes: ChangesView) -> Result<Seq<u8>, Seq<char>> {
    match wav_of(f) {
        Err(e) => Err(fault_text(e)),
        Ok(w) => match plan_of(w, all_held(f, w.chunks), changes) {
            Err(why) => Err("cannot write the new file: "@ + why),
            Ok(pieces) => {
                let g = rendered(f, pieces);
                match wav_of(g) {
                    Err(e) => Err(wrong_of(fault_text(e))),
                    Ok(c) => match check_of(w, c, audio(f, w) == audio(g, c), changes) {
                        Err(why) => Err(why),
                        Ok(_) => Ok(g),
                    },
                }
            },
        },
    }
}

/// The new file while it is laid out.
struct Layout {
    pieces: Vec<Piece>,
    bext: bool,
    ixml: bool,
    info: bool,
    markers: bool,
}

impl View for Layout {
    type V = LayoutView;

    closed spec fn view(&self) -> LayoutView {
        LayoutView {
            pieces: piece_views(self.pieces@),
            bext: self.bext,
            ixml: self.ixml,
            info: self.info,
            markers: self.markers,
        }
    }
}

/// What `Layout` needs to place the pieces.
struct Origin<'a> {
    wide: bool,
    has_bext: bool,
    changes: &'a Changes,
    info: Vec<([u8; 4], Vec<u8>)>,
    marks: StoredMarks,
}

impl<'a> View for Origin<'a> {
    type V = Sources;

    closed spec fn view(&self) -> Sources {
        Sources {
            wide: self.wide,
            has_bext: self.has_bext,
            changes: self.changes@,
            info: stored(self.info@),
            marks: self.marks@,
        }
    }
}

impl Layout {
    fn push_chunk(&mut self, id: &[u8; 4], body: &[u8])
        ensures
            final(self)@ == (LayoutView { pieces: old(self)@.add_chunk(id@, body@), ..old(self)@ }),
    {
        let mut b: Vec<u8> = Vec::new();
        subchunk(&mut b, id, body);
        let ghost whole = b@;
        assert(whole =~= packed((id@, body@)));
        self.push_bytes(b);
    }

    fn push_bytes(&mut self, b: Vec<u8>)
        ensures
            final(self)@ == (LayoutView {
                pieces: old(self)@.pieces.push(PieceView::Bytes(b@)),
                ..old(self)@
            }),
    {
        let ghost before = piece_views(self.pieces@);
        let ghost added = b@;
        self.pieces.push(Piece::Bytes(b));
        assert(piece_views(self.pieces@) =~= before.push(PieceView::Bytes(added)));
    }

    fn put_bext(&mut self, s: &Origin)
        ensures
            final(self)@ == old(self)@.put_bext(s@),
    {
        if !self.bext {
            self.bext = true;
            match &s.changes.bext {
                Some(b) => {
                    self.push_chunk(&BEXT, b.as_slice());
                },
                None => {},
            }
        }
        assert(self@ =~= old(self)@.put_bext(s@));
    }

    fn put_ixml(&mut self, s: &Origin)
        ensures
            final(self)@ == old(self)@.put_ixml(s@),
    {
        if !self.ixml {
            self.ixml = true;
            match &s.changes.ixml {
                Some(t) => {
                    self.push_chunk(&IXML, t.as_str().as_bytes());
                },
                None => {},
            }
        }
        assert(self@ =~= old(self)@.put_ixml(s@));
    }

    fn put_info(&mut self, s: &Origin)
        ensures
            final(self)@ == old(self)@.put_info(s@),
    {
        if !self.info {
            self.info = true;
            match &s.changes.info {
                Some(entries) => {
                    assert(named(entries@).len() == entries@.len());
                    if entries.len() > 0 {
                        let body = info_body(entries.as_slice(), s.info.as_slice());
                        self.push_chunk(&LIST, body.as_slice());
                    }
                },
                None => {},
            }
        }
        assert(self@ =~= old(self)@.put_info(s@));
    }

    fn put_marks(&mut self, s: &Origin)
        ensures
            final(self)@ == old(self)@.put_marks(s@),
    {
        if !self.markers {
            self.markers = true;
            match &s.changes.markers {
                Some(ms) => {
                    let (cue, adtl) = mark_bodies(ms.as_slice(), &s.marks);
                    self.push_chunk(&CUE, cue.as_slice());
                    match adtl {
                        Some(body) => {
                            self.push_chunk(&LIST, body.as_slice());
                        },
                        None => {},
                    }
                },
                None => {},
            }
        }
        assert(self@ =~= old(self)@.put_marks(s@));
    }

    fn put_copy(&mut self, c: &Chunk, wide: bool)
        requires
            c@.start <= c@.end,
        ensures
            final(self)@ == old(self)@.put_copy(c@, wide),
    {
        let start: u64 = c.body.start;
        let end: u64 = c.body.end;
        let len: u64 = end - start;
        let size: u32 = if wide || len > 0xFFFF_FFFF {
            0xFFFF_FFFF
        } else {
            len as u32
        };
        let mut head: Vec<u8> = Vec::new();
        put(&mut head, c.id.as_slice());
        put_u32(&mut head, size);
        assert(head@ =~= c@.id + le4(size));
        self.push_bytes(head);
        let ghost before = piece_views(self.pieces@);
        self.pieces.push(Piece::Copy { start, end });
        assert(piece_views(self.pieces@) =~= before.push(PieceView::Copy(start, end)));
        if len % 2 == 1 {
            let mut pad: Vec<u8> = Vec::new();
            pad.push(0);
            assert(pad@ =~= seq![0u8]);
            self.push_bytes(pad);
        }
        assert(self@ =~= old(self)@.put_copy(c@, wide));
    }

    fn put_next(&mut self, s: &Origin, c: &Chunk, kind: &[u8; 4])
        requires
            c@.start <= c@.end,
        ensures
            final(self)@ == old(self)@.chunk(s@, c@, kind@),
    {
        if same4(&c.id, &DS64) {
        } else if same4(&c.id, &BEXT) && s.changes.bext.is_some() && !self.bext {
            self.put_bext(s);
        } else if same4(&c.id, &IXML) && s.changes.ixml.is_some() && !self.ixml {
            self.put_ixml(s);
        } else if same4(&c.id, &CUE) && s.changes.markers.is_some() {
            self.put_marks(s);
        } else if same4(&c.id, &LIST) && same4(kind, &INFO) && s.changes.info.is_some() {
            self.put_info(s);
        } else if same4(&c.id, &LIST) && same4(kind, &ADTL) && s.changes.markers.is_some() {
        } else if same4(&c.id, &DATA) {
            if !s.has_bext {
                self.put_bext(s);
            }
            self.put_copy(c, s.wide);
        } else {
            self.put_copy(c, false);
        }
    }
}

fn tail(b: &[u8]) -> (r: &[u8])
    ensures
        r@ == after_type(b@),
{
    if b.len() < 4 {
        let r = slice_subrange(b, 0, 0);
        assert(r@ =~= Seq::<u8>::empty());
        r
    } else {
        let r = slice_subrange(b, 4, b.len());
        assert(r@ =~= b@.skip(4));
        r
    }
}

fn origin<'a>(w: &Wav, held: &Vec<Held>, changes: &'a Changes) -> (r: Origin<'a>)
    requires
        held@.len() == w.chunks@.len(),
    ensures
        r@ == sources_of(w@, held_views(held@), changes@),
{
    let ghost all = w@.chunks;
    let ghost hv = held_views(held@);
    let mut info: Vec<([u8; 4], Vec<u8>)> = Vec::new();
    let mut stored_marks = StoredMarks::default();
    let mut has_bext = false;
    let mut i: usize = 0;
    proof {
        assert(all.take(0) =~= Seq::<ChunkView>::empty());
        assert(stored(info@) =~= stored_info_of(all.take(0), hv));
        assert(stored_marks@ =~= stored_marks_of(all.take(0), hv));
    }
    while i < w.chunks.len()
        invariant
            i <= w.chunks@.len(),
            held@.len() == w.chunks@.len(),
            all == w@.chunks,
            hv == held_views(held@),
            has_bext == (exists|j: int| 0 <= j < i && (#[trigger] all[j]).id == BEXT@),
            stored(info@) == stored_info_of(all.take(i as int), hv),
            stored_marks@ == stored_marks_of(all.take(i as int), hv),
        decreases w.chunks@.len() - i,
    {
        let c = &w.chunks[i];
        let h = &held[i];
        proof {
            assert(all[i as int] == c@);
            assert(hv[i as int] == h@);
            assert(all.take(i + 1).drop_last() =~= all.take(i as int));
            assert(all.take(i + 1)[i as int] == c@);
        }
        if same4(&c.id, &BEXT) {
            has_bext = true;
            assert(all[i as int].id == BEXT@);
        }
        if same4(&c.id, &CUE) {
            stored_marks.add_cue(h.body.as_slice());
        } else if same4(&c.id, &LIST) && same4(&h.kind, &INFO) {
            add_entries(&mut info, tail(h.body.as_slice()));
        } else if same4(&c.id, &LIST) && same4(&h.kind, &ADTL) {
            stored_marks.add_adtl(tail(h.body.as_slice()));
        }
        proof {
            assert(CUE@[0] != LIST@[0]);
            assert(INFO@[0] != ADTL@[0]);
            assert(stored_marks@ =~= stored_marks_of(all.take(i + 1), hv));
        }
        i = i + 1;
    }
    assert(all.take(i as int) =~= all);
    Origin { wide: !same(w.container, "WAV"), has_bext, changes, info, marks: stored_marks }
}

fn add_entries(out: &mut Vec<([u8; 4], Vec<u8>)>, b: &[u8])
    ensures
        stored(final(out)@) == stored(old(out)@) + subchunks_of(b@),
{
    let entries = subchunks(b);
    let ghost all = crate::wav::borrowed(entries@);
    let mut i: usize = 0;
    assert(all.take(0) =~= Seq::<(Seq<u8>, Seq<u8>)>::empty());
    assert(stored(out@) + all.take(0) =~= stored(out@));
    while i < entries.len()
        invariant
            i <= entries@.len(),
            all == crate::wav::borrowed(entries@),
            stored(out@) == stored(old(out)@) + all.take(i as int),
        decreases entries@.len() - i,
    {
        let ghost so_far = stored(out@);
        let body = slice_to_vec(entries[i].1);
        let ghost added = body@;
        out.push((entries[i].0, body));
        i = i + 1;
        assert(stored(out@) =~= so_far.push((entries@[i - 1].0@, added)));
        assert(all.take(i as int) =~= all.take(i - 1).push(all[i - 1]));
        assert(stored(out@) =~= stored(old(out)@) + all.take(i as int));
    }
    assert(all.take(i as int) =~= all);
}

/// Bytes in all of the pieces, where that is no more than `most`.
fn size_of(pieces: &Vec<Piece>, first: u64, most: u64) -> (r: Option<u64>)
    requires
        first <= most,
        forall|i: int|
            0 <= i < pieces@.len() ==> match (#[trigger] pieces@[i])@ {
                PieceView::Copy(start, end) => start <= end,
                PieceView::Bytes(_) => true,
            },
    ensures
        match r {
            Some(n) => n == first + pieces_len(piece_views(pieces@)) && n <= most,
            None => first + pieces_len(piece_views(pieces@)) > most,
        },
{
    let ghost all = piece_views(pieces@);
    let mut n: u64 = first;
    let mut i: usize = 0;
    assert(all.take(0) =~= Seq::<PieceView>::empty());
    while i < pieces.len()
        invariant
            i <= pieces@.len(),
            all == piece_views(pieces@),
            n == first + pieces_len(all.take(i as int)),
            n <= most,
            forall|i: int|
                0 <= i < pieces@.len() ==> match (#[trigger] pieces@[i])@ {
                    PieceView::Copy(start, end) => start <= end,
                    PieceView::Bytes(_) => true,
                },
        decreases pieces@.len() - i,
    {
        let len: u64 = match &pieces[i] {
            Piece::Bytes(b) => b.len() as u64,
            Piece::Copy { start, end } => {
                assert(pieces@[i as int]@ == PieceView::Copy(*start, *end));
                *end - *start
            },
        };
        proof {
            assert(all[i as int] == pieces@[i as int]@);
            assert(all.take(i + 1).drop_last() =~= all.take(i as int));
            assert(len == piece_len(all[i as int]));
            lemma_pieces_len_grows(all, i + 1);
            assert(all.take(all.len() as int) =~= all);
        }
        if len > most - n {
            return None;
        }
        n = n + len;
        i = i + 1;
    }
    assert(all.take(i as int) =~= all);
    Some(n)
}

proof fn lemma_pieces_len_grows(s: Seq<PieceView>, i: int)
    requires
        0 <= i <= s.len(),
        forall|j: int|
            0 <= j < s.len() ==> match #[trigger] s[j] {
                PieceView::Copy(start, end) => start <= end,
                PieceView::Bytes(_) => true,
            },
    ensures
        pieces_len(s.take(i)) <= pieces_len(s),
    decreases s.len() - i,
{
    if i < s.len() {
        lemma_pieces_len_grows(s, i + 1);
        assert(s.take(i + 1).drop_last() =~= s.take(i));
        assert(s.take(i + 1).last() == s[i]);
    } else {
        assert(s.take(i) =~= s);
    }
}

/// Whether every chunk's body ends no earlier than it starts, and by `len`.
pub open spec fn chunks_within(chunks: Seq<ChunkView>, len: int) -> bool {
    forall|i: int|
        0 <= i < chunks.len() ==> (#[trigger] chunks[i]).start <= chunks[i].end <= len
}

proof fn lemma_layout_within(
    s: Sources,
    chunks: Seq<ChunkView>,
    held: Seq<HeldView>,
    len: int,
)
    requires
        chunks_within(chunks, len),
    ensures
        pieces_within(chunks_laid(s, chunks, held).pieces, len),
    decreases chunks.len(),
{
    if chunks.len() > 0 {
        let c = chunks.last();
        lemma_layout_within(s, chunks.drop_last(), held, len);
        let before = chunks_laid(s, chunks.drop_last(), held);
        let after = before.chunk(s, c, held[chunks.len() - 1].kind);
        assert(c.start <= c.end <= len);
        assert(pieces_within(after.pieces, len));
    }
}

fn lay_out(w: &Wav, held: &Vec<Held>, changes: &Changes) -> (r: Vec<Piece>)
    requires
        held@.len() == w.chunks@.len(),
        chunks_within(w@.chunks, u64::MAX as int),
    ensures
        piece_views(r@) == body_of(w@, held_views(held@), changes@),
{
    reveal(body_of);
    let ghost all = w@.chunks;
    let ghost hv = held_views(held@);
    let s = origin(w, held, changes);
    let mut layout = Layout {
        pieces: Vec::new(),
        bext: false,
        ixml: false,
        info: false,
        markers: false,
    };
    let mut i: usize = 0;
    proof {
        assert(all.take(0) =~= Seq::<ChunkView>::empty());
        assert(layout@ =~= chunks_laid(s@, all.take(0), hv));
    }
    while i < w.chunks.len()
        invariant
            i <= w.chunks@.len(),
            held@.len() == w.chunks@.len(),
            all == w@.chunks,
            hv == held_views(held@),
            chunks_within(all, u64::MAX as int),
            layout@ == chunks_laid(s@, all.take(i as int), hv),
        decreases w.chunks@.len() - i,
    {
        proof {
            assert(all[i as int] == w.chunks@[i as int]@);
            assert(hv[i as int] == held@[i as int]@);
            assert(all.take(i + 1).drop_last() =~= all.take(i as int));
        }
        layout.put_next(&s, &w.chunks[i], &held[i].kind);
        i = i + 1;
    }
    assert(all.take(i as int) =~= all);
    layout.put_info(&s);
    layout.put_marks(&s);
    layout.put_ixml(&s);
    layout.pieces
}

/// The pieces of the new file, in order: its header, then each of the
/// old file's chunks, copied or replaced, then whatever the old file had no
/// chunk of.
pub fn plan(w: &Wav, held: &Vec<Held>, changes: &Changes) -> (r: Result<Vec<Piece>, String>)
    requires
        w@.wf(),
        held@.len() == w.chunks@.len(),
        chunks_within(w@.chunks, u64::MAX as int),
    ensures
        match r {
            Ok(pieces) => plan_of(w@, held_views(held@), changes@) == Ok::<
                Seq<PieceView>,
                Seq<char>,
            >(piece_views(pieces@)),
            Err(why) => plan_of(w@, held_views(held@), changes@) == Err::<
                Seq<PieceView>,
                Seq<char>,
            >(why@),
        },
{
    reveal(plan_of);
    let ghost hv = held_views(held@);
    let mut rest = lay_out(w, held, changes);
    let ghost body = piece_views(rest@);
    let wide = !same(w.container, "WAV");
    let first: u64 = if wide {
        48
    } else {
        12
    };
    let most: u64 = if wide {
        0xFFFF_FFFF_FFFF_FFFF
    } else {
        0x1_0000_0007
    };
    proof {
        lemma_body_within(w@, hv, changes@, u64::MAX as int);
        assert forall|i: int| 0 <= i < rest@.len() implies match (#[trigger] rest@[i])@ {
            PieceView::Copy(start, end) => start <= end,
            PieceView::Bytes(_) => true,
        } by {
            assert(body[i] == rest@[i]@);
        }
        lemma_pieces_len_grows(body, 0);
        assert(body.take(0) =~= Seq::<PieceView>::empty());
    }
    match size_of(&rest, first, most) {
        None => Err("too big for a RIFF file".to_owned()),
        Some(total) => {
            let head = header(w, wide, total);
            let mut out: Vec<Piece> = Vec::new();
            let ghost h = head@;
            out.push(Piece::Bytes(head));
            out.append(&mut rest);
            assert(piece_views(out@) =~= seq![PieceView::Bytes(h)] + body);
            Ok(out)
        },
    }
}

fn header(w: &Wav, wide: bool, total: u64) -> (r: Vec<u8>)
    requires
        w@.wf(),
        wide == is_wide(w@),
        total >= 12,
        !wide ==> total <= u32::MAX + 8,
    ensures
        r@ == header_of(w@, total as int),
{
    let mut out: Vec<u8> = Vec::new();
    if same(w.container, "RF64") {
        put(&mut out, RF64.as_slice());
    } else if same(w.container, "BW64") {
        put(&mut out, BW64.as_slice());
    } else {
        put(&mut out, RIFF.as_slice());
    }
    assert(out@ =~= magic_of(w@.container));
    if wide {
        put_u32(&mut out, 0xFFFF_FFFF);
    } else {
        put_u32(&mut out, (total - 8) as u32);
    }
    put(&mut out, WAVE.as_slice());
    if wide {
        let data: u64 = w.data.end - w.data.start;
        let frame: usize = w.frame_bytes();
        assert(frame > 0) by (nonlinear_arith)
            requires
                frame == w@.kind.width() * w@.channels,
                w@.kind.width() > 0,
                w@.channels > 0,
        ;
        put(&mut out, DS64.as_slice());
        put_u32(&mut out, 28);
        put_u64(&mut out, total - 8);
        put_u64(&mut out, data);
        put_u64(&mut out, data / (frame as u64));
        put_u32(&mut out, 0);
    }
    reveal(header_of);
    assert(out@ =~= header_of(w@, total as int));
    out
}

/// Whether the body of a chunk with this id, and with this type where it is
/// a `LIST`, is to be handed to `plan`.
pub fn body_wanted(id: &[u8; 4], kind: &[u8; 4]) -> (r: bool)
    ensures
        r == body_is_held(id@, kind@),
{
    same4(id, &CUE) || (same4(id, &LIST) && (same4(kind, &INFO) || same4(kind, &ADTL)))
}

fn hold(file: &[u8], c: &Chunk) -> (r: Held)
    requires
        c@.start <= c@.end <= file@.len(),
    ensures
        r@ == held_of(file@, c@),
{
    let n: usize = file.len();
    assert(c@.end <= n);
    let start: usize = c.body.start as usize;
    let end: usize = c.body.end as usize;
    let mut kind: [u8; 4] = [0, 0, 0, 0];
    assert(kind@ =~= zeros(4));
    if same4(&c.id, &LIST) && end - start >= 4 {
        kind = crate::bytes::four(file, start).unwrap();
    }
    let body = if body_wanted(&c.id, &kind) {
        cut(file, start, end)
    } else {
        Vec::new()
    };
    let h = Held { kind, body };
    assert(h@ =~= held_of(file@, c@));
    h
}

fn hold_all(file: &[u8], chunks: &Vec<Chunk>) -> (r: Vec<Held>)
    requires
        chunks_within(crate::wav::places(chunks@), file@.len() as int),
    ensures
        held_views(r@) == all_held(file@, crate::wav::places(chunks@)),
        r@.len() == chunks@.len(),
{
    let ghost all = crate::wav::places(chunks@);
    let mut out: Vec<Held> = Vec::new();
    let mut i: usize = 0;
    while i < chunks.len()
        invariant
            i <= chunks@.len(),
            out@.len() == i,
            all == crate::wav::places(chunks@),
            chunks_within(all, file@.len() as int),
            held_views(out@) == all_held(file@, all).take(i as int),
        decreases chunks@.len() - i,
    {
        assert(all[i as int] == chunks@[i as int]@);
        let ghost so_far = held_views(out@);
        let h = hold(file, &chunks[i]);
        out.push(h);
        i = i + 1;
        assert(held_views(out@) =~= so_far.push(h@));
        assert(all_held(file@, all).take(i as int) =~= all_held(file@, all).take(i - 1).push(
            all_held(file@, all)[i - 1],
        ));
    }
    assert(all_held(file@, all).take(i as int) =~= all_held(file@, all));
    out
}

/// The new file, given the old file and the pieces of the new one.
pub fn render(file: &[u8], pieces: &Vec<Piece>) -> (r: Vec<u8>)
    requires
        pieces_within(piece_views(pieces@), file@.len() as int),
    ensures
        r@ == rendered(file@, piece_views(pieces@)),
{
    let ghost all = piece_views(pieces@);
    let len: usize = file.len();
    let mut out: Vec<u8> = Vec::new();
    let mut i: usize = 0;
    assert(all.take(0) =~= Seq::<PieceView>::empty());
    assert(out@ =~= rendered(file@, all.take(0)));
    while i < pieces.len()
        invariant
            i <= pieces@.len(),
            all == piece_views(pieces@),
            len == file@.len(),
            pieces_within(all, file@.len() as int),
            out@ == rendered(file@, all.take(i as int)),
        decreases pieces@.len() - i,
    {
        proof {
            assert(all[i as int] == pieces@[i as int]@);
            assert(all.take(i + 1).drop_last() =~= all.take(i as int));
        }
        match &pieces[i] {
            Piece::Bytes(b) => {
                put(&mut out, b.as_slice());
            },
            Piece::Copy { start, end } => {
                put(&mut out, slice_subrange(file, *start as usize, *end as usize));
            },
        }
        i = i + 1;
    }
    assert(all.take(i as int) =~= all);
    out
}

/// Whether two byte strings are the same.
pub fn same_bytes(a: &[u8], b: &[u8]) -> (r: bool)
    ensures
        r == (a@ == b@),
{
    if a.len() != b.len() {
        return false;
    }
    let mut i: usize = 0;
    while i < a.len()
        invariant
            i <= a@.len(),
            a@.len() == b@.len(),
            forall|j: int| 0 <= j < i ==> a@[j] == b@[j],
        decreases a@.len() - i,
    {
        if a[i] != b[i] {
            assert(a@[i as int] != b@[i as int]);
            return false;
        }
        i = i + 1;
    }
    assert(a@ =~= b@);
    true
}

/// Whether two markers are the same.
pub fn same_marker(a: &Marker, b: &Marker) -> (r: bool)
    ensures
        r == (a@ == b@),
{
    let r = a.id == b.id && a.frame == b.frame && a.length == b.length && same(
        a.label.as_str(),
        b.label.as_str(),
    ) && same(a.note.as_str(), b.note.as_str());
    proof {
        if r {
            assert(a@ =~= b@);
        }
    }
    r
}

/// Whether two lists of markers are the same.
pub fn same_markers(a: &Vec<Marker>, b: &Vec<Marker>) -> (r: bool)
    ensures
        r == (marks(a@) == marks(b@)),
{
    assert(marks(a@).len() == a@.len() && marks(b@).len() == b@.len());
    if a.len() != b.len() {
        return false;
    }
    let mut i: usize = 0;
    while i < a.len()
        invariant
            i <= a@.len(),
            a@.len() == b@.len(),
            forall|j: int| 0 <= j < i ==> marks(a@)[j] == marks(b@)[j],
        decreases a@.len() - i,
    {
        assert(marks(a@)[i as int] == a@[i as int]@ && marks(b@)[i as int] == b@[i as int]@);
        if !same_marker(&a[i], &b[i]) {
            return false;
        }
        i = i + 1;
    }
    assert(marks(a@) =~= marks(b@));
    true
}

/// Whether two lists of identified texts are the same.
pub fn same_named(a: &Vec<([u8; 4], String)>, b: &Vec<([u8; 4], String)>) -> (r: bool)
    ensures
        r == (named(a@) == named(b@)),
{
    assert(named(a@).len() == a@.len() && named(b@).len() == b@.len());
    if a.len() != b.len() {
        return false;
    }
    let mut i: usize = 0;
    while i < a.len()
        invariant
            i <= a@.len(),
            a@.len() == b@.len(),
            forall|j: int| 0 <= j < i ==> named(a@)[j] == named(b@)[j],
        decreases a@.len() - i,
    {
        assert(named(a@)[i as int] == (a@[i as int].0@, a@[i as int].1@));
        assert(named(b@)[i as int] == (b@[i as int].0@, b@[i as int].1@));
        if !same4(&a[i].0, &b[i].0) || !same(a[i].1.as_str(), b[i].1.as_str()) {
            return false;
        }
        i = i + 1;
    }
    assert(named(a@) =~= named(b@));
    true
}

/// What is said of a new file that did not come out as meant.
pub fn wrong(what: &str) -> (r: String)
    ensures
        r@ == wrong_of(what@),
{
    let mut s = "the new file came out wrong (".to_owned();
    s.append(what);
    s.append("), so nothing was changed");
    s
}

/// Holds the new file, which reads as `c`, against the old file, which
/// reads as `w`, and the changes meant.
pub fn verify(w: &Wav, c: &Wav, same_audio: bool, changes: &Changes) -> (r: Result<(), String>)
    ensures
        match r {
            Ok(_) => check_of(w@, c@, same_audio, changes@) == Ok::<(), Seq<char>>(()),
            Err(why) => check_of(w@, c@, same_audio, changes@) == Err::<(), Seq<char>>(why@),
        },
{
    reveal(check_of);
    if !same(c.container, w.container) || c.sample_rate != w.sample_rate || c.channels
        != w.channels || c.kind != w.kind {
        return Err(wrong("format"));
    }
    if !same_audio {
        return Err(wrong("audio"));
    }
    let bext_fits = match (&c.bext, &changes.bext, &w.bext) {
        (Some(back), Some(meant), _) => same_bytes(back.raw.as_slice(), meant.as_slice()),
        (Some(back), None, Some(had)) => same_bytes(back.raw.as_slice(), had.raw.as_slice()),
        (None, None, None) => true,
        _ => false,
    };
    if !bext_fits {
        return Err(wrong("Broadcast WAV"));
    }
    let marks_fit = match (&c.cues, &changes.markers, &w.cues) {
        (Some(back), Some(meant), _) => same_markers(back, meant),
        (Some(back), None, Some(had)) => same_markers(back, had),
        (None, None, None) => true,
        _ => false,
    };
    if !marks_fit {
        return Err(wrong("markers"));
    }
    let info_fits = match &changes.info {
        Some(meant) => same_named(&c.info, meant),
        None => same_named(&c.info, &w.info),
    };
    if !info_fits {
        return Err(wrong("RIFF INFO"));
    }
    let ixml_fits = match (&c.ixml, &changes.ixml, &w.ixml) {
        (Some(back), Some(meant), _) => {
            let t = trim(meant.as_str());
            same(back.as_str(), t.as_str())
        },
        (Some(back), None, Some(had)) => {
            let t = trim(had.as_str());
            same(back.as_str(), t.as_str())
        },
        (None, None, None) => true,
        _ => false,
    };
    if !ixml_fits {
        return Err(wrong("iXML"));
    }
    Ok(())
}

/// The file whose bytes are `file` with `changes` saved into it: laid out
/// anew, read back and compared.
pub fn saved(file: &[u8], changes: &Changes) -> (r: Result<Vec<u8>, String>)
    ensures
        match r {
            Ok(g) => saved_of(file@, changes@) == Ok::<Seq<u8>, Seq<char>>(g@),
            Err(why) => saved_of(file@, changes@) == Err::<Seq<u8>, Seq<char>>(why@),
        },
{
    let len: usize = file.len();
    let w = match parse(file) {
        Ok(w) => w,
        Err(e) => {
            return Err(e.message());
        },
    };
    proof {
        crate::wav::chunks_lie_in_the_file(file@);
    }
    let held = hold_all(file, &w.chunks);
    let pieces = match plan(&w, &held, changes) {
        Ok(pieces) => pieces,
        Err(why) => {
            let mut text = "cannot write the new file: ".to_owned();
            text.append(why.as_str());
            return Err(text);
        },
    };
    proof {
        lemma_plan_within(w@, held_views(held@), changes@, file@.len() as int);
    }
    let g = render(file, &pieces);
    let new_len: usize = g.len();
    let c = match parse(g.as_slice()) {
        Ok(c) => c,
        Err(e) => {
            let why = e.message();
            return Err(wrong(why.as_str()));
        },
    };
    proof {
        crate::wav::chunks_lie_in_the_file(g@);
    }
    let same_audio = same_bytes(
        slice_subrange(file, w.data.start as usize, w.data.end as usize),
        slice_subrange(g.as_slice(), c.data.start as usize, c.data.end as usize),
    );
    match verify(&w, &c, same_audio, changes) {
        Ok(_) => Ok(g),
        Err(why) => Err(why),
    }
}

pub proof fn lemma_body_within(w: WavView, held: Seq<HeldView>, changes: ChangesView, len: int)
    requires
        chunks_within(w.chunks, len),
    ensures
        pieces_within(body_of(w, held, changes), len),
{
    reveal(body_of);
    let s = sources_of(w, held, changes);
    lemma_layout_within(s, w.chunks, held, len);
    let a = chunks_laid(s, w.chunks, held);
    assert(pieces_within(a.put_info(s).pieces, len));
    assert(pieces_within(a.put_info(s).put_marks(s).pieces, len));
}

proof fn lemma_plan_within(w: WavView, held: Seq<HeldView>, changes: ChangesView, len: int)
    requires
        chunks_within(w.chunks, len),
    ensures
        plan_of(w, held, changes) matches Ok(pieces) ==> pieces_within(pieces, len),
{
    reveal(plan_of);
    lemma_body_within(w, held, changes, len);
}

/// Where the new file is written: hidden, beside the file itself.
pub open spec fn temp_path_of(path: Seq<char>) -> Seq<char> {
    with_file_name_of(path, seq!['.'] + file_name_of(path) + ".soundcheck-save"@)
}

/// Where the new file is written: hidden, beside the file itself.
pub fn temp_path(path: &str) -> (r: String)
    ensures
        r@ == temp_path_of(path@),
{
    let name = file_name(path);
    let mut hidden = ".".to_owned();
    proof {
        reveal_strlit(".");
        assert("."@ =~= seq!['.']);
    }
    hidden.append(name.as_str());
    hidden.append(".soundcheck-save");
    with_file_name(path, hidden.as_str())
}

/// What a save does next.
#[derive(Debug, Clone, Copy, PartialEq, Eq, Structural)]
pub enum Step {
    /// Remove the new file that a save which was cut off left behind.
    Clear,
    /// Open the file and read what it holds.
    Open,
    /// Write the new file.
    Write,
    /// Read the new file back and hold it against what was meant.
    Check,
    /// Carry the file's dates and attributes over to the new one.
    Attributes,
    /// Put the new file in the file's place.
    Place,
    /// Remove the new file.
    Discard,
    Finished,
}

/// A save under way.
pub struct Saving {
    pub step: Step,
    /// Why the file was not saved.
    pub error: Option<String>,
}

#[verifier::ext_equal]
pub struct SavingView {
    pub step: Step,
    pub error: Option<Seq<char>>,
}

impl View for Saving {
    type V = SavingView;

    open spec fn view(&self) -> SavingView {
        SavingView { step: self.step, error: crate::wav::text_view(self.error) }
    }
}

/// What comes before the reason that a step failed.
pub open spec fn trouble(step: Step) -> Seq<char> {
    match step {
        Step::Write => "cannot write the new file: "@,
        Step::Attributes => "cannot carry over the file's dates and attributes: "@,
        Step::Place => "cannot put the new file in place: "@,
        _ => Seq::empty(),
    }
}

impl SavingView {
    /// The save after its step went as `failed` says.
    pub open spec fn after(self, failed: Option<Seq<char>>) -> SavingView {
        match (self.step, failed) {
            (Step::Clear, _) => SavingView { step: Step::Open, ..self },
            (Step::Discard, _) => SavingView { step: Step::Finished, ..self },
            (Step::Finished, _) => self,
            (_, Some(why)) => SavingView {
                step: Step::Discard,
                error: Some(trouble(self.step) + why),
            },
            (Step::Open, None) => SavingView { step: Step::Write, ..self },
            (Step::Write, None) => SavingView { step: Step::Check, ..self },
            (Step::Check, None) => SavingView { step: Step::Attributes, ..self },
            (Step::Attributes, None) => SavingView { step: Step::Place, ..self },
            (Step::Place, None) => SavingView { step: Step::Finished, ..self },
        }
    }
}

pub open spec fn first_step() -> SavingView {
    SavingView { step: Step::Clear, error: None }
}

impl Saving {
    pub fn new() -> (r: Saving)
        ensures
            r@ == first_step(),
    {
        Saving { step: Step::Clear, error: None }
    }

    /// Goes on from a step that went as `failed` says.
    pub fn took(&mut self, failed: Option<String>)
        ensures
            final(self)@ == old(self)@.after(crate::wav::text_view(failed)),
    {
        match self.step {
            Step::Clear => {
                self.step = Step::Open;
                return;
            },
            Step::Discard => {
                self.step = Step::Finished;
                return;
            },
            Step::Finished => {
                return;
            },
            _ => {},
        }
        match failed {
            Some(why) => {
                let mut text = match self.step {
                    Step::Write => "cannot write the new file: ".to_owned(),
                    Step::Attributes => {
                        "cannot carry over the file's dates and attributes: ".to_owned()
                    },
                    Step::Place => "cannot put the new file in place: ".to_owned(),
                    _ => String::new(),
                };
                proof {
                    assert(text@ =~= trouble(self.step));
                }
                text.append(why.as_str());
                self.step = Step::Discard;
                self.error = Some(text);
            },
            None => {
                self.step = match self.step {
                    Step::Open => Step::Write,
                    Step::Write => Step::Check,
                    Step::Check => Step::Attributes,
                    Step::Attributes => Step::Place,
                    _ => Step::Finished,
                };
            },
        }
    }
}

/// What a disk holds at a file's place, and at the place of the new one.
pub struct Disk {
    pub file: Seq<u8>,
    pub new: Option<Seq<u8>>,
}

/// The disk after a step. `there` is what stands at the new file's place
/// after it, where it is one that writes or removes the new file; a file
/// takes another's place in one step, or does not.
pub open spec fn disk_after(d: Disk, step: Step, failed: bool, there: Option<Seq<u8>>) -> Disk {
    match step {
        Step::Clear | Step::Write | Step::Attributes | Step::Discard => Disk { new: there, ..d },
        Step::Place => if failed || d.new is None {
            d
        } else {
            Disk { file: d.new->0, new: None }
        },
        Step::Open | Step::Check | Step::Finished => d,
    }
}

/// What holds while a save of `file` goes on, where `new` is what was read
/// back and found to be what was meant.
pub open spec fn save_holds(s: SavingView, d: Disk, file: Seq<u8>, new: Option<Seq<u8>>) -> bool {
    match s.step {
        Step::Finished => if s.error is None {
            new == Some(d.file)
        } else {
            d.file == file
        },
        Step::Attributes | Step::Place => d.file == file && s.error is None && d.new is Some && new
            == d.new,
        Step::Discard => d.file == file && s.error is Some,
        _ => d.file == file && s.error is None,
    }
}

/// However a save ends, the file is either untouched or replaced by the new
/// file as it was read back and found to be what was meant: so it is at the
/// start, and each step keeps it so. A new file that was checked is there,
/// and carrying attributes over to it leaves its bytes as they are.
pub proof fn a_save_leaves_the_file_or_replaces_it(
    s: SavingView,
    d: Disk,
    file: Seq<u8>,
    new: Option<Seq<u8>>,
    failed: Option<Seq<char>>,
    there: Option<Seq<u8>>,
)
    requires
        save_holds(s, d, file, new),
        s.step == Step::Check && failed is None ==> d.new is Some,
        s.step == Step::Attributes ==> there == d.new,
    ensures
        save_holds(
            s.after(failed),
            disk_after(d, s.step, failed is Some, there),
            file,
            if s.step == Step::Check && failed is None {
                d.new
            } else {
                new
            },
        ),
        save_holds(first_step(), Disk { file, new: there }, file, None),
{
}

/// What a rename comes to.
#[derive(Debug)]
pub enum Renaming {
    /// The file has that name already.
    Same(String),
    /// The file goes to this place.
    Move(String),
}

#[verifier::ext_equal]
pub enum RenamingView {
    Same(Seq<char>),
    Move(Seq<char>),
}

impl View for Renaming {
    type V = RenamingView;

    open spec fn view(&self) -> RenamingView {
        match self {
            Renaming::Same(p) => RenamingView::Same(p@),
            Renaming::Move(p) => RenamingView::Move(p@),
        }
    }
}

/// Whether a trimmed text can be a file's name.
pub open spec fn can_be_a_name(name: Seq<char>, windows: bool) -> bool {
    &&& name.len() > 0
    &&& name[0] != '.'
    &&& forall|i: int|
        0 <= i < name.len() ==> !reserved_of(windows).contains(#[trigger] name[i]) && !control(
            name[i],
        )
}

/// What is said of a text that cannot be a file's name.
pub open spec fn no_name(name: Seq<char>, windows: bool) -> Seq<char> {
    "\""@ + name + "\" cannot be a file name: it must not start with a dot or hold any of "@
        + reserved_of(windows)
}

/// Where a file goes by another name in its folder.
pub open spec fn rename_target_of(path: Seq<char>, name: Seq<char>, windows: bool) -> Result<
    Seq<char>,
    Seq<char>,
> {
    if can_be_a_name(trim_of(name), windows) {
        Ok(with_file_name_of(path, trim_of(name)))
    } else {
        Err(no_name(trim_of(name), windows))
    }
}

/// Renaming `path` to `name` in the same folder, never over another file:
/// `other` says whether one is at that name.
pub open spec fn rename_of(path: Seq<char>, name: Seq<char>, windows: bool, other: bool) -> Result<
    RenamingView,
    Seq<char>,
> {
    match rename_target_of(path, name, windows) {
        Err(why) => Err(why),
        Ok(target) => if target == path {
            Ok(RenamingView::Same(target))
        } else if other {
            Err(trim_of(name) + " already exists in this folder"@)
        } else {
            Ok(RenamingView::Move(target))
        },
    }
}

/// Where a file goes by another name in its folder.
pub fn rename_target(path: &str, name: &str, windows: bool) -> (r: Result<String, String>)
    ensures
        match (r, rename_target_of(path@, name@, windows)) {
            (Ok(p), Ok(target)) => p@ == target,
            (Err(t), Err(e)) => t@ == e,
            _ => false,
        },
{
    let name = trim(name);
    let v = chars(name.as_str());
    let barred = reserved(windows);
    let mut fits = v.len() > 0 && v[0] != '.';
    let mut i: usize = 0;
    while i < v.len()
        invariant
            i <= v@.len(),
            barred@ == reserved_of(windows),
            fits == (v@.len() > 0 && v@[0] != '.' && forall|j: int|
                0 <= j < i ==> !reserved_of(windows).contains(#[trigger] v@[j]) && !control(
                    v@[j],
                )),
        decreases v@.len() - i,
    {
        if holds(barred.as_slice(), v[i]) || is_control(v[i]) {
            fits = false;
        }
        i = i + 1;
    }
    if !fits {
        let all = string(barred.as_slice());
        let mut text = "\"".to_owned();
        text.append(name.as_str());
        text.append("\" cannot be a file name: it must not start with a dot or hold any of ");
        text.append(all.as_str());
        return Err(text);
    }
    Ok(with_file_name(path, name.as_str()))
}

/// Renaming `path` to `name` in the same folder, never over another file:
/// `other` says whether one is at that name.
pub fn rename(path: &str, name: &str, windows: bool, other: bool) -> (r: Result<Renaming, String>)
    ensures
        match (r, rename_of(path@, name@, windows, other)) {
            (Ok(p), Ok(renaming)) => p@ == renaming,
            (Err(t), Err(e)) => t@ == e,
            _ => false,
        },
{
    let target = rename_target(path, name, windows)?;
    if same(target.as_str(), path) {
        return Ok(Renaming::Same(target));
    }
    if other {
        let mut text = trim(name);
        text.append(" already exists in this folder");
        return Err(text);
    }
    Ok(Renaming::Move(target))
}

} // verus!
