//! WAV, RF64 and BW64 reading, and the chunk bodies saving writes.
//!
//! RF64 and BW64 are what recorders switch to past 4 GiB, and recorders keep
//! their metadata and marks in the `bext`, `iXML` and `cue ` chunks.

use crate::bytes::{
    cut, four, le4, put, put_u32, same4, u16_at, u16_le, u32_at, u32_le, u64_at, u64_le,
};
use crate::text::{decimal, digits_of, hex4, hex4_of, same, string, trim_chars, trim_of, utf8};
use std::ops::Range;
use vstd::prelude::*;
use vstd::slice::{slice_subrange, slice_to_vec};
use vstd::utf8::{decode_utf8, encode_utf8, valid_utf8};

verus! {

/// Metadata chunks are read whole; past this they are cut short, so a
/// damaged size field cannot ask for gigabytes of memory.
pub const METADATA_MAX: u64 = 0x100_0000;

pub const RIFF: [u8; 4] = [0x52, 0x49, 0x46, 0x46];

pub const RF64: [u8; 4] = [0x52, 0x46, 0x36, 0x34];

pub const BW64: [u8; 4] = [0x42, 0x57, 0x36, 0x34];

pub const WAVE: [u8; 4] = [0x57, 0x41, 0x56, 0x45];

pub const DATA: [u8; 4] = [0x64, 0x61, 0x74, 0x61];

pub const DS64: [u8; 4] = [0x64, 0x73, 0x36, 0x34];

pub const FMT: [u8; 4] = [0x66, 0x6D, 0x74, 0x20];

pub const BEXT: [u8; 4] = [0x62, 0x65, 0x78, 0x74];

pub const IXML: [u8; 4] = [0x69, 0x58, 0x4D, 0x4C];

pub const CUE: [u8; 4] = [0x63, 0x75, 0x65, 0x20];

pub const LIST: [u8; 4] = [0x4C, 0x49, 0x53, 0x54];

pub const INFO: [u8; 4] = [0x49, 0x4E, 0x46, 0x4F];

pub const ADTL: [u8; 4] = [0x61, 0x64, 0x74, 0x6C];

pub const LABL: [u8; 4] = [0x6C, 0x61, 0x62, 0x6C];

pub const NOTE: [u8; 4] = [0x6E, 0x6F, 0x74, 0x65];

pub const LTXT: [u8; 4] = [0x6C, 0x74, 0x78, 0x74];

/// What a region's `ltxt` says it is for.
pub const RGN: [u8; 4] = [0x72, 0x67, 0x6E, 0x20];

/// The characters Windows-1252 has from 0x80 to 0x9F.
pub const HIGH: [char; 32] = [
    '\u{20AC}',
    '\u{81}',
    '\u{201A}',
    '\u{192}',
    '\u{201E}',
    '\u{2026}',
    '\u{2020}',
    '\u{2021}',
    '\u{2C6}',
    '\u{2030}',
    '\u{160}',
    '\u{2039}',
    '\u{152}',
    '\u{8D}',
    '\u{17D}',
    '\u{8F}',
    '\u{90}',
    '\u{2018}',
    '\u{2019}',
    '\u{201C}',
    '\u{201D}',
    '\u{2022}',
    '\u{2013}',
    '\u{2014}',
    '\u{2DC}',
    '\u{2122}',
    '\u{161}',
    '\u{203A}',
    '\u{153}',
    '\u{9D}',
    '\u{17E}',
    '\u{178}',
];

#[derive(Debug, Clone, Copy, PartialEq, Eq, Structural)]
pub enum SampleKind {
    U8,
    I16,
    I24,
    I32,
    F32,
    F64,
}

impl SampleKind {
    /// Bytes that one sample takes.
    pub open spec fn width(self) -> nat {
        match self {
            SampleKind::U8 => 1,
            SampleKind::I16 => 2,
            SampleKind::I24 => 3,
            SampleKind::I32 => 4,
            SampleKind::F32 => 4,
            SampleKind::F64 => 8,
        }
    }

    pub fn bytes(self) -> (r: usize)
        ensures
            r == self.width(),
    {
        match self {
            SampleKind::U8 => 1,
            SampleKind::I16 => 2,
            SampleKind::I24 => 3,
            SampleKind::I32 => 4,
            SampleKind::F32 => 4,
            SampleKind::F64 => 8,
        }
    }

    pub fn bits(self) -> (r: u16)
        ensures
            r == 8 * self.width(),
    {
        match self {
            SampleKind::U8 => 8,
            SampleKind::I16 => 16,
            SampleKind::I24 => 24,
            SampleKind::I32 => 32,
            SampleKind::F32 => 32,
            SampleKind::F64 => 64,
        }
    }
}

/// What a `fmt ` chunk says of the samples.
#[derive(Debug, Clone, Copy, PartialEq, Eq, Structural)]
pub struct Format {
    pub sample_rate: u32,
    pub channels: u16,
    pub kind: SampleKind,
}

#[derive(Debug, PartialEq)]
pub struct Bext {
    pub description: String,
    pub originator: String,
    pub originator_reference: String,
    pub origination_date: String,
    pub origination_time: String,
    /// Samples since midnight at the first sample of the file.
    pub time_reference: u64,
    pub coding_history: String,
    /// The chunk as stored, so a save can change some fields and keep the
    /// rest (version, UMID, loudness) byte for byte.
    pub raw: Vec<u8>,
}

#[verifier::ext_equal]
pub struct BextView {
    pub description: Seq<char>,
    pub originator: Seq<char>,
    pub originator_reference: Seq<char>,
    pub origination_date: Seq<char>,
    pub origination_time: Seq<char>,
    pub time_reference: u64,
    pub coding_history: Seq<char>,
    pub raw: Seq<u8>,
}

impl View for Bext {
    type V = BextView;

    open spec fn view(&self) -> BextView {
        BextView {
            description: self.description@,
            originator: self.originator@,
            originator_reference: self.originator_reference@,
            origination_date: self.origination_date@,
            origination_time: self.origination_time@,
            time_reference: self.time_reference,
            coding_history: self.coding_history@,
            raw: self.raw@,
        }
    }
}

impl Clone for Bext {
    fn clone(&self) -> (r: Self)
        ensures
            r@ == self@,
    {
        Bext {
            description: self.description.clone(),
            originator: self.originator.clone(),
            originator_reference: self.originator_reference.clone(),
            origination_date: self.origination_date.clone(),
            origination_time: self.origination_time.clone(),
            time_reference: self.time_reference,
            coding_history: self.coding_history.clone(),
            raw: slice_to_vec(self.raw.as_slice()),
        }
    }
}

impl Default for Bext {
    fn default() -> (r: Self)
        ensures
            r@ == no_bext(),
    {
        Bext {
            description: String::new(),
            originator: String::new(),
            originator_reference: String::new(),
            origination_date: String::new(),
            origination_time: String::new(),
            time_reference: 0,
            coding_history: String::new(),
            raw: Vec::new(),
        }
    }
}

/// A `bext` chunk with nothing in it.
pub open spec fn no_bext() -> BextView {
    BextView {
        description: Seq::empty(),
        originator: Seq::empty(),
        originator_reference: Seq::empty(),
        origination_date: Seq::empty(),
        origination_time: Seq::empty(),
        time_reference: 0,
        coding_history: Seq::empty(),
        raw: Seq::empty(),
    }
}

/// A mark in the recording, as recorders and editors keep them: a `cue `
/// point, named and given a length in `LIST/adtl`.
#[derive(Debug, PartialEq)]
pub struct Marker {
    pub id: u32,
    pub frame: usize,
    /// Frames it spans; 0 for a point.
    pub length: usize,
    pub label: String,
    pub note: String,
}

#[verifier::ext_equal]
pub struct MarkerView {
    pub id: u32,
    pub frame: usize,
    pub length: usize,
    pub label: Seq<char>,
    pub note: Seq<char>,
}

impl View for Marker {
    type V = MarkerView;

    open spec fn view(&self) -> MarkerView {
        MarkerView {
            id: self.id,
            frame: self.frame,
            length: self.length,
            label: self.label@,
            note: self.note@,
        }
    }
}

impl Clone for Marker {
    fn clone(&self) -> (r: Self)
        ensures
            r@ == self@,
    {
        Marker {
            id: self.id,
            frame: self.frame,
            length: self.length,
            label: self.label.clone(),
            note: self.note.clone(),
        }
    }
}

/// Markers by their views.
pub open spec fn marks(s: Seq<Marker>) -> Seq<MarkerView> {
    s.map_values(|m: Marker| m@)
}

/// A chunk's place in the file: its id, and its body after the eight
/// header bytes, cut short where the file ends.
#[derive(Debug, PartialEq)]
pub struct Chunk {
    pub id: [u8; 4],
    pub body: Range<u64>,
}

#[verifier::ext_equal]
pub struct ChunkView {
    pub id: Seq<u8>,
    pub start: u64,
    pub end: u64,
}

impl View for Chunk {
    type V = ChunkView;

    open spec fn view(&self) -> ChunkView {
        ChunkView { id: self.id@, start: self.body.start, end: self.body.end }
    }
}

impl Clone for Chunk {
    fn clone(&self) -> (r: Self)
        ensures
            r@ == self@,
    {
        Chunk { id: self.id, body: self.body.start..self.body.end }
    }
}

/// Chunks by their views.
pub open spec fn places(s: Seq<Chunk>) -> Seq<ChunkView> {
    s.map_values(|c: Chunk| c@)
}

/// Identified texts by their views.
pub open spec fn named(s: Seq<([u8; 4], String)>) -> Seq<(Seq<u8>, Seq<char>)> {
    s.map_values(|e: ([u8; 4], String)| (e.0@, e.1@))
}

/// Identified byte strings by their views.
pub open spec fn stored(s: Seq<([u8; 4], Vec<u8>)>) -> Seq<(Seq<u8>, Seq<u8>)> {
    s.map_values(|e: ([u8; 4], Vec<u8>)| (e.0@, e.1@))
}

/// Identified stretches of a byte string by their views.
pub open spec fn borrowed(s: Seq<([u8; 4], &[u8])>) -> Seq<(Seq<u8>, Seq<u8>)> {
    s.map_values(|e: ([u8; 4], &[u8])| (e.0@, e.1@))
}

#[derive(Debug)]
pub struct Wav {
    pub container: &'static str,
    pub sample_rate: u32,
    pub channels: u16,
    pub kind: SampleKind,
    /// Byte range of the sample data within the file.
    pub data: Range<u64>,
    pub bext: Option<Bext>,
    pub ixml: Option<String>,
    /// `LIST/INFO` entries, each with its id and text.
    pub info: Vec<([u8; 4], String)>,
    /// The file's markers, in order, or `None` when it has no `cue ` chunk.
    pub cues: Option<Vec<Marker>>,
    /// Every chunk, in file order.
    pub chunks: Vec<Chunk>,
}

#[verifier::ext_equal]
pub struct WavView {
    pub container: Seq<char>,
    pub sample_rate: u32,
    pub channels: u16,
    pub kind: SampleKind,
    pub data: (u64, u64),
    pub bext: Option<BextView>,
    pub ixml: Option<Seq<char>>,
    pub info: Seq<(Seq<u8>, Seq<char>)>,
    pub cues: Option<Seq<MarkerView>>,
    pub chunks: Seq<ChunkView>,
}

pub open spec fn bext_view(b: Option<Bext>) -> Option<BextView> {
    match b {
        Some(b) => Some(b@),
        None => None,
    }
}

pub open spec fn text_view(t: Option<String>) -> Option<Seq<char>> {
    match t {
        Some(t) => Some(t@),
        None => None,
    }
}

impl View for Wav {
    type V = WavView;

    open spec fn view(&self) -> WavView {
        WavView {
            container: self.container@,
            sample_rate: self.sample_rate,
            channels: self.channels,
            kind: self.kind,
            data: (self.data.start, self.data.end),
            bext: bext_view(self.bext),
            ixml: text_view(self.ixml),
            info: named(self.info@),
            cues: match self.cues {
                Some(m) => Some(marks(m@)),
                None => None,
            },
            chunks: places(self.chunks@),
        }
    }
}

impl WavView {
    /// What holds of every file that was read: it has channels and a sample
    /// rate, and its sample data is a stretch of the file.
    pub open spec fn wf(self) -> bool {
        &&& self.channels > 0
        &&& self.sample_rate > 0
        &&& self.data.0 <= self.data.1
    }
}

#[derive(Debug)]
pub enum Error {
    /// Not a WAVE file at all, so another reader should try it.
    NotWav,
    Invalid(String),
}

/// `Error` by its text.
#[verifier::ext_equal]
pub enum Fault {
    NotWav,
    Invalid(Seq<char>),
}

impl View for Error {
    type V = Fault;

    open spec fn view(&self) -> Fault {
        match self {
            Error::NotWav => Fault::NotWav,
            Error::Invalid(why) => Fault::Invalid(why@),
        }
    }
}

impl Error {
    /// The error as it is shown.
    pub fn message(&self) -> (r: String)
        ensures
            match self@ {
                Fault::NotWav => r@ == "not a WAV file"@,
                Fault::Invalid(why) => r@ == why,
            },
    {
        match self {
            Error::NotWav => "not a WAV file".to_owned(),
            Error::Invalid(why) => why.clone(),
        }
    }
}

/// Where the first NUL at or after `i` stands in `b`, or its end.
pub open spec fn nul_at(b: Seq<u8>, i: int) -> int
    decreases b.len() - i,
{
    if i >= b.len() {
        b.len() as int
    } else if b[i] == 0 {
        i
    } else {
        nul_at(b, i + 1)
    }
}

/// The character Windows-1252 has for `c`. It differs from Latin-1 only
/// from 0x80 to 0x9F; the five bytes there it leaves undefined read as
/// Latin-1's.
pub open spec fn windows_1252_of(c: u8) -> char {
    if 0x80 <= c <= 0x9F {
        HIGH@[c - 0x80]
    } else {
        c as char
    }
}

/// `b` as UTF-8, or where it is not, as Windows-1252.
pub open spec fn decoded(b: Seq<u8>) -> Seq<char> {
    if valid_utf8(b) {
        decode_utf8(b)
    } else {
        b.map_values(|c: u8| windows_1252_of(c))
    }
}

/// The text in a fixed-width, NUL-padded field.
pub open spec fn text_of(b: Seq<u8>) -> Seq<char> {
    trim_of(decoded(b.take(nul_at(b, 0))))
}

pub fn windows_1252(c: u8) -> (r: char)
    ensures
        r == windows_1252_of(c),
{
    if 0x80 <= c && c <= 0x9F {
        HIGH[(c - 0x80) as usize]
    } else {
        c as char
    }
}

/// Fixed-width, NUL-padded text as recorders write it. Text that is not
/// UTF-8 is read as Windows-1252, as older Windows software wrote it, so
/// every byte still reads as a letter and none is lost.
pub fn text(b: &[u8]) -> (r: String)
    ensures
        r@ == text_of(b@),
{
    let mut n: usize = 0;
    while n < b.len() && b[n] != 0
        invariant
            n <= b@.len(),
            nul_at(b@, 0) == nul_at(b@, n as int),
        decreases b@.len() - n,
    {
        n = n + 1;
    }
    let field = slice_subrange(b, 0, n);
    assert(field@ =~= b@.take(n as int));
    let decoded_chars: Vec<char> = match utf8(field) {
        Some(s) => crate::text::chars(s.as_str()),
        None => {
            let mut out: Vec<char> = Vec::new();
            let mut i: usize = 0;
            while i < field.len()
                invariant
                    i <= field@.len(),
                    out@ == field@.take(i as int).map_values(|c: u8| windows_1252_of(c)),
                decreases field@.len() - i,
            {
                out.push(windows_1252(field[i]));
                i = i + 1;
                assert(out@ =~= field@.take(i as int).map_values(|c: u8| windows_1252_of(c)));
            }
            assert(field@.take(i as int) =~= field@);
            out
        },
    };
    let t = trim_chars(decoded_chars.as_slice());
    string(t.as_slice())
}

/// Windows-1252 has another letter for every byte.
proof fn lemma_letters_differ(a: u8, b: u8)
    requires
        windows_1252_of(a) == windows_1252_of(b),
    ensures
        a == b,
{
    assert forall|i: int| 0 <= i < 32 implies 0x80 <= (#[trigger] HIGH@[i]) as u32 && !(0xA0
        <= HIGH@[i] as u32 <= 0xFF) by {}
    assert forall|i: int, j: int| 0 <= i < j < 32 implies #[trigger] HIGH@[i]
        != #[trigger] HIGH@[j] by {}
}

/// Text that is not UTF-8 reads with one letter for each byte, and no two
/// such texts read alike.
pub proof fn no_byte_is_lost(a: Seq<u8>, b: Seq<u8>)
    requires
        !valid_utf8(a),
        !valid_utf8(b),
    ensures
        decoded(a).len() == a.len(),
        decoded(a) == decoded(b) ==> a == b,
{
    if decoded(a) == decoded(b) {
        assert forall|i: int| 0 <= i < a.len() implies a[i] == b[i] by {
            assert(decoded(a)[i] == decoded(b)[i]);
            lemma_letters_differ(a[i], b[i]);
        }
        assert(a =~= b);
    }
}

/// What a `fmt ` chunk's body says, or why it cannot be read.
pub open spec fn fmt_of(b: Seq<u8>) -> Result<Format, Seq<char>> {
    let outer = u16_le(b, 0);
    let tag = if outer == 0xFFFE {
        u16_le(b, 24)
    } else {
        outer
    };
    let bits = u16_le(b, 14);
    if b.len() < 16 || (outer == 0xFFFE && b.len() < 26) {
        Err("WAV fmt chunk is truncated"@)
    } else {
        match kind_of(tag, bits) {
            None => Err(unsupported(tag as nat, bits as nat)),
            Some(kind) => if u16_le(b, 2) == 0 || u32_le(b, 4) == 0 {
                Err("WAV file declares no channels or no sample rate"@)
            } else {
                Ok(
                    Format {
                        sample_rate: u32_le(b, 4) as u32,
                        channels: u16_le(b, 2) as u16,
                        kind,
                    },
                )
            },
        }
    }
}

/// The encodings that can be read.
pub open spec fn kind_of(tag: int, bits: int) -> Option<SampleKind> {
    if tag == 1 && bits == 8 {
        Some(SampleKind::U8)
    } else if tag == 1 && bits == 16 {
        Some(SampleKind::I16)
    } else if tag == 1 && bits == 24 {
        Some(SampleKind::I24)
    } else if tag == 1 && bits == 32 {
        Some(SampleKind::I32)
    } else if tag == 3 && bits == 32 {
        Some(SampleKind::F32)
    } else if tag == 3 && bits == 64 {
        Some(SampleKind::F64)
    } else {
        None
    }
}

pub open spec fn unsupported(tag: nat, bits: nat) -> Seq<char> {
    "unsupported WAV encoding (format 0x"@ + hex4_of(tag) + ", "@ + digits_of(bits) + "-bit)"@
}

pub fn parse_fmt(b: &[u8]) -> (r: Result<Format, Error>)
    ensures
        match r {
            Ok(f) => fmt_of(b@) == Ok::<Format, Seq<char>>(f),
            Err(e) => fmt_of(b@) matches Err(why) && e@ == Fault::Invalid(why),
        },
{
    if b.len() < 16 {
        return Err(Error::Invalid("WAV fmt chunk is truncated".to_owned()));
    }
    let mut tag: u16 = u16_at(b, 0).unwrap();
    let channels: u16 = u16_at(b, 2).unwrap();
    let sample_rate: u32 = u32_at(b, 4).unwrap();
    let bits: u16 = u16_at(b, 14).unwrap();
    if tag == 0xFFFE {
        // WAVE_FORMAT_EXTENSIBLE: the real format tag leads the sub-format GUID.
        match u16_at(b, 24) {
            Some(inner) => {
                tag = inner;
            },
            None => {
                return Err(Error::Invalid("WAV fmt chunk is truncated".to_owned()));
            },
        }
    }
    let kind = if tag == 1 && bits == 8 {
        SampleKind::U8
    } else if tag == 1 && bits == 16 {
        SampleKind::I16
    } else if tag == 1 && bits == 24 {
        SampleKind::I24
    } else if tag == 1 && bits == 32 {
        SampleKind::I32
    } else if tag == 3 && bits == 32 {
        SampleKind::F32
    } else if tag == 3 && bits == 64 {
        SampleKind::F64
    } else {
        let mut why = "unsupported WAV encoding (format 0x".to_owned();
        let hex = hex4(tag);
        let dec = decimal(bits as u64);
        why.append(string(hex.as_slice()).as_str());
        why.append(", ");
        why.append(string(dec.as_slice()).as_str());
        why.append("-bit)");
        return Err(Error::Invalid(why));
    };
    if channels == 0 || sample_rate == 0 {
        return Err(
            Error::Invalid("WAV file declares no channels or no sample rate".to_owned()),
        );
    }
    Ok(Format { sample_rate, channels, kind })
}

/// What a `bext` chunk's body says: field offsets from EBU Tech 3285.
pub open spec fn bext_of(b: Seq<u8>) -> Option<BextView> {
    if b.len() < 346 {
        None
    } else {
        Some(
            BextView {
                description: text_of(b.subrange(0, 256)),
                originator: text_of(b.subrange(256, 288)),
                originator_reference: text_of(b.subrange(288, 320)),
                origination_date: text_of(b.subrange(320, 330)),
                origination_time: text_of(b.subrange(330, 338)),
                time_reference: u64_le(b, 338) as u64,
                coding_history: if b.len() < 602 {
                    Seq::empty()
                } else {
                    text_of(b.skip(602))
                },
                raw: b,
            },
        )
    }
}

pub fn parse_bext(b: &[u8]) -> (r: Option<Bext>)
    ensures
        bext_view(r) == bext_of(b@),
{
    if b.len() < 346 {
        return None;
    }
    let time_reference: u64 = u64_at(b, 338).unwrap();
    let coding_history = if b.len() < 602 {
        String::new()
    } else {
        assert(b@.subrange(602, b@.len() as int) =~= b@.skip(602));
        text(slice_subrange(b, 602, b.len()))
    };
    let bext = Bext {
        description: text(slice_subrange(b, 0, 256)),
        originator: text(slice_subrange(b, 256, 288)),
        originator_reference: text(slice_subrange(b, 288, 320)),
        origination_date: text(slice_subrange(b, 320, 330)),
        origination_time: text(slice_subrange(b, 330, 338)),
        time_reference,
        coding_history,
        raw: slice_to_vec(b),
    };
    assert(bext@ =~= bext_of(b@)->0);
    Some(bext)
}

/// Where the subchunk at the start of `b` ends, cut short where `b` does.
pub open spec fn subchunk_end(b: Seq<u8>) -> int {
    if 8 + u32_le(b, 4) <= b.len() {
        8 + u32_le(b, 4)
    } else {
        b.len() as int
    }
}

/// What follows the subchunk at the start of `b` and its padding.
pub open spec fn after_subchunk(b: Seq<u8>) -> Seq<u8> {
    let next = subchunk_end(b) + u32_le(b, 4) % 2;
    if next <= b.len() {
        b.skip(next)
    } else {
        Seq::empty()
    }
}

/// The chunks packed inside a `LIST`, after its type, each with its body.
pub open spec fn subchunks_of(b: Seq<u8>) -> Seq<(Seq<u8>, Seq<u8>)>
    decreases b.len(),
{
    if b.len() < 8 {
        Seq::empty()
    } else {
        seq![(b.take(4), b.subrange(8, subchunk_end(b)))] + subchunks_of(after_subchunk(b))
    }
}

/// The chunks packed inside a `LIST`, after its type, each with its body.
pub fn subchunks<'a>(b: &'a [u8]) -> (r: Vec<([u8; 4], &'a [u8])>)
    ensures
        borrowed(r@) == subchunks_of(b@),
{
    let mut out: Vec<([u8; 4], &'a [u8])> = Vec::new();
    let mut rest: &'a [u8] = b;
    assert(borrowed(out@) + subchunks_of(rest@) =~= subchunks_of(b@));
    while rest.len() >= 8
        invariant
            borrowed(out@) + subchunks_of(rest@) == subchunks_of(b@),
        decreases rest@.len(),
    {
        let id = four(rest, 0).unwrap();
        let size: u32 = u32_at(rest, 4).unwrap();
        let end: usize = if size as u64 <= (rest.len() - 8) as u64 {
            8 + size as usize
        } else {
            rest.len()
        };
        let body = slice_subrange(rest, 8, end);
        let ghost before = borrowed(out@);
        let ghost whole = rest@;
        out.push((id, body));
        assert(id@ =~= whole.take(4));
        assert(borrowed(out@) =~= before.push((id@, body@)));
        if size % 2 == 1 && end == rest.len() {
            rest = slice_subrange(rest, rest.len(), rest.len());
            assert(rest@ =~= Seq::<u8>::empty());
        } else {
            let next: usize = end + (size % 2) as usize;
            rest = slice_subrange(rest, next, rest.len());
            assert(rest@ =~= whole.skip(next as int));
        }
        assert(rest@ == after_subchunk(whole));
        assert(borrowed(out@) + subchunks_of(rest@) =~= before + subchunks_of(whole));
    }
    assert(borrowed(out@) + subchunks_of(rest@) =~= borrowed(out@));
    out
}

/// The text of each entry of a `LIST/INFO`.
pub open spec fn info_of(b: Seq<u8>) -> Seq<(Seq<u8>, Seq<char>)> {
    subchunks_of(b).map_values(|e: (Seq<u8>, Seq<u8>)| (e.0, text_of(e.1)))
}

pub fn parse_info(b: &[u8]) -> (r: Vec<([u8; 4], String)>)
    ensures
        named(r@) == info_of(b@),
{
    let entries = subchunks(b);
    let mut out: Vec<([u8; 4], String)> = Vec::new();
    let mut i: usize = 0;
    while i < entries.len()
        invariant
            i <= entries@.len(),
            borrowed(entries@) == subchunks_of(b@),
            named(out@) == info_of(b@).take(i as int),
        decreases entries@.len() - i,
    {
        let ghost before = named(out@);
        assert(borrowed(entries@)[i as int] == subchunks_of(b@)[i as int]);
        let value = text(entries[i].1);
        out.push((entries[i].0, value));
        i = i + 1;
        assert(named(out@) =~= before.push((entries@[i - 1].0@, value@)));
        assert(info_of(b@).take(i as int) =~= info_of(b@).take(i - 1).push(info_of(b@)[i - 1]));
    }
    assert(borrowed(entries@).len() == entries@.len());
    assert(info_of(b@).take(i as int) =~= info_of(b@));
    out
}

/// How many cue points a `cue ` body holds: as many as it says, or as there
/// are.
pub open spec fn cue_count(b: Seq<u8>) -> nat {
    if b.len() < 4 {
        0
    } else if u32_le(b, 0) <= (b.len() - 4) / 24 {
        u32_le(b, 0) as nat
    } else {
        ((b.len() - 4) / 24) as nat
    }
}

/// The cue points in a `cue ` body, as stored.
pub open spec fn cue_points_of(b: Seq<u8>) -> Seq<Seq<u8>> {
    Seq::new(cue_count(b), |i: int| b.subrange(4 + 24 * i, 28 + 24 * i))
}

/// A cue point's id and frame. The frame is `dwSampleOffset`; a few writers
/// leave that zero and put it in `dwPosition` instead.
pub open spec fn point_of(p: Seq<u8>) -> (u32, u32) {
    (
        u32_le(p, 0) as u32,
        if u32_le(p, 20) == 0 {
            u32_le(p, 4) as u32
        } else {
            u32_le(p, 20) as u32
        },
    )
}

/// The ids and frames of the cue points in a `cue ` body.
pub open spec fn cue_of(b: Seq<u8>) -> Seq<(u32, u32)> {
    cue_points_of(b).map_values(|p: Seq<u8>| point_of(p))
}

/// Stored cue points by their views.
pub open spec fn blocks(s: Seq<[u8; 24]>) -> Seq<Seq<u8>> {
    s.map_values(|p: [u8; 24]| p@)
}

fn block(b: &[u8], at: usize) -> (r: [u8; 24])
    requires
        at + 24 <= b@.len(),
    ensures
        r@ == b@.subrange(at as int, at + 24),
{
    let r: [u8; 24] = [
        b[at],
        b[at + 1],
        b[at + 2],
        b[at + 3],
        b[at + 4],
        b[at + 5],
        b[at + 6],
        b[at + 7],
        b[at + 8],
        b[at + 9],
        b[at + 10],
        b[at + 11],
        b[at + 12],
        b[at + 13],
        b[at + 14],
        b[at + 15],
        b[at + 16],
        b[at + 17],
        b[at + 18],
        b[at + 19],
        b[at + 20],
        b[at + 21],
        b[at + 22],
        b[at + 23],
    ];
    assert(r@ =~= b@.subrange(at as int, at + 24));
    r
}

pub fn cue_points(b: &[u8]) -> (r: Vec<[u8; 24]>)
    ensures
        blocks(r@) == cue_points_of(b@),
{
    let mut out: Vec<[u8; 24]> = Vec::new();
    if b.len() < 4 {
        assert(blocks(out@) =~= cue_points_of(b@));
        return out;
    }
    let count: u32 = u32_at(b, 0).unwrap();
    let room: usize = (b.len() - 4) / 24;
    let n: usize = if count as u64 <= room as u64 {
        count as usize
    } else {
        room
    };
    let mut i: usize = 0;
    while i < n
        invariant
            i <= n,
            n == cue_count(b@),
            4 + 24 * n <= b@.len() <= usize::MAX,
            blocks(out@) == cue_points_of(b@).take(i as int),
        decreases n - i,
    {
        let ghost before = blocks(out@);
        let p = block(b, 4 + 24 * i);
        out.push(p);
        i = i + 1;
        assert(blocks(out@) =~= before.push(p@));
        assert(cue_points_of(b@).take(i as int) =~= cue_points_of(b@).take(i - 1).push(
            cue_points_of(b@)[i - 1],
        ));
    }
    assert(cue_points_of(b@).take(n as int) =~= cue_points_of(b@));
    out
}

pub fn point(p: &[u8; 24]) -> (r: (u32, u32))
    ensures
        r == point_of(p@),
{
    let s = p.as_slice();
    let id: u32 = u32_at(s, 0).unwrap();
    let position: u32 = u32_at(s, 4).unwrap();
    let offset: u32 = u32_at(s, 20).unwrap();
    (
        id,
        if offset == 0 {
            position
        } else {
            offset
        },
    )
}

pub fn parse_cue(b: &[u8]) -> (r: Vec<(u32, u32)>)
    ensures
        r@ == cue_of(b@),
{
    let points = cue_points(b);
    let mut out: Vec<(u32, u32)> = Vec::new();
    let mut i: usize = 0;
    while i < points.len()
        invariant
            i <= points@.len(),
            blocks(points@) == cue_points_of(b@),
            out@ == cue_of(b@).take(i as int),
        decreases points@.len() - i,
    {
        assert(blocks(points@)[i as int] == points@[i as int]@);
        out.push(point(&points[i]));
        i = i + 1;
        assert(cue_of(b@).take(i as int) =~= cue_of(b@).take(i - 1).push(cue_of(b@)[i - 1]));
    }
    assert(blocks(points@).len() == points@.len());
    assert(cue_of(b@).take(i as int) =~= cue_of(b@));
    out
}

/// Where the text of a `labl`, `note` or `ltxt` subchunk starts: after its
/// cue id and, in an `ltxt`, the region's details.
pub open spec fn text_start(kind: Seq<u8>) -> int {
    if kind == LTXT@ {
        20
    } else {
        4
    }
}

/// The text in a `labl`, `note` or `ltxt` subchunk.
pub open spec fn mark_text_of(kind: Seq<u8>, body: Seq<u8>) -> Seq<char> {
    if body.len() < text_start(kind) {
        Seq::empty()
    } else {
        text_of(body.skip(text_start(kind)))
    }
}

pub fn mark_text(kind: &[u8; 4], body: &[u8]) -> (r: String)
    ensures
        r@ == mark_text_of(kind@, body@),
{
    let from: usize = if same4(kind, &LTXT) {
        20
    } else {
        4
    };
    if body.len() < from {
        String::new()
    } else {
        assert(body@.subrange(from as int, body@.len() as int) =~= body@.skip(from as int));
        text(slice_subrange(body, from, body.len()))
    }
}

/// Whether `e` is a subchunk of this kind about this cue point, with at
/// least `room` bytes in it.
pub open spec fn about(e: (Seq<u8>, Seq<u8>), kind: Seq<u8>, id: u32, room: int) -> bool {
    e.0 == kind && e.1.len() >= room && u32_le(e.1, 0) == id
}

/// The last subchunk of this kind about this cue point: a later one takes
/// the place of an earlier.
pub open spec fn last_about(
    entries: Seq<(Seq<u8>, Seq<u8>)>,
    kind: Seq<u8>,
    id: u32,
    room: int,
) -> Option<Seq<u8>>
    decreases entries.len(),
{
    if entries.len() == 0 {
        None
    } else if about(entries.last(), kind, id, room) {
        Some(entries.last().1)
    } else {
        last_about(entries.drop_last(), kind, id, room)
    }
}

/// Whether no cue point before the one at `i` has its id: what `LIST/adtl`
/// says of an id goes to its first point.
pub open spec fn first_of_its_id(points: Seq<(u32, u32)>, i: int) -> bool {
    forall|j: int| 0 <= j < i ==> (#[trigger] points[j]).0 != points[i].0
}

/// The marker at cue point `i`, with what the subchunks of `LIST/adtl` say
/// of it: an `ltxt` gives its length and, where no `labl` names it, its
/// name.
pub open spec fn marker_of(
    points: Seq<(u32, u32)>,
    entries: Seq<(Seq<u8>, Seq<u8>)>,
    i: int,
) -> MarkerView {
    let id = points[i].0;
    let first = first_of_its_id(points, i);
    let region = if first {
        last_about(entries, LTXT@, id, 8)
    } else {
        None
    };
    let label = if first {
        last_about(entries, LABL@, id, 4)
    } else {
        None
    };
    let note = if first {
        last_about(entries, NOTE@, id, 4)
    } else {
        None
    };
    let named = match region {
        Some(body) => mark_text_of(LTXT@, body),
        None => Seq::empty(),
    };
    MarkerView {
        id,
        frame: points[i].1 as usize,
        length: match region {
            Some(body) => u32_le(body, 4) as usize,
            None => 0,
        },
        label: match label {
            Some(body) => if mark_text_of(LABL@, body).len() == 0 {
                named
            } else {
                mark_text_of(LABL@, body)
            },
            None => named,
        },
        note: match note {
            Some(body) => mark_text_of(NOTE@, body),
            None => Seq::empty(),
        },
    }
}

/// Whether `a` goes before `b`: by frame, then by id.
pub open spec fn before(a: MarkerView, b: MarkerView) -> bool {
    a.frame < b.frame || (a.frame == b.frame && a.id < b.id)
}

/// `s`, which is in order, with `m` behind every marker it does not go
/// before.
pub open spec fn insert_mark(s: Seq<MarkerView>, m: MarkerView) -> Seq<MarkerView>
    decreases s.len(),
{
    if s.len() == 0 || !before(m, s.last()) {
        s.push(m)
    } else {
        insert_mark(s.drop_last(), m).push(s.last())
    }
}

/// The markers of `s` by frame and id, those alike in both as they were.
pub open spec fn sort_marks(s: Seq<MarkerView>) -> Seq<MarkerView>
    decreases s.len(),
{
    if s.len() == 0 {
        s
    } else {
        insert_mark(sort_marks(s.drop_last()), s.last())
    }
}

/// The markers at `points`, named by the subchunks in `entries`, in order.
pub open spec fn markers_of(
    points: Seq<(u32, u32)>,
    entries: Seq<(Seq<u8>, Seq<u8>)>,
) -> Seq<MarkerView> {
    sort_marks(Seq::new(points.len(), |i: int| marker_of(points, entries, i)))
}

/// Puts `m` into `v`, which is in order, where it belongs.
pub fn place_marker(v: &mut Vec<Marker>, m: Marker)
    ensures
        marks(final(v)@) == insert_mark(marks(old(v)@), m@),
{
    let ghost all = marks(v@);
    let mut at: usize = v.len();
    assert(all.take(at as int) =~= all);
    assert(all.skip(at as int) =~= Seq::<MarkerView>::empty());
    assert(insert_mark(all.take(at as int), m@) + all.skip(at as int) =~= insert_mark(all, m@));
    while at > 0 && (m.frame < v[at - 1].frame || (m.frame == v[at - 1].frame && m.id < v[at
        - 1].id))
        invariant
            at <= v@.len(),
            all == marks(v@),
            v@ == old(v)@,
            insert_mark(all.take(at as int), m@) + all.skip(at as int) == insert_mark(all, m@),
        decreases at,
    {
        proof {
            let upto = all.take(at as int);
            assert(upto.last() == v@[at - 1]@);
            assert(upto.drop_last() =~= all.take(at - 1));
            assert(all.skip(at - 1) =~= seq![upto.last()] + all.skip(at as int));
            assert(insert_mark(all.take(at - 1), m@) + all.skip(at - 1) =~= insert_mark(upto, m@)
                + all.skip(at as int));
        }
        at = at - 1;
    }
    proof {
        let upto = all.take(at as int);
        if at > 0 {
            assert(upto.last() == v@[at - 1]@);
        }
        assert(insert_mark(upto, m@) == upto.push(m@));
    }
    let ghost view = m@;
    v.insert(at, m);
    assert(marks(v@) =~= all.take(at as int).push(view) + all.skip(at as int));
}

/// Puts the markers of `v` in order, by frame and then id.
pub fn sort_markers(v: Vec<Marker>) -> (r: Vec<Marker>)
    ensures
        marks(r@) == sort_marks(marks(v@)),
{
    let mut out: Vec<Marker> = Vec::new();
    let ghost all = marks(v@);
    assert(all.take(0) =~= Seq::<MarkerView>::empty());
    assert(marks(out@) =~= sort_marks(all.take(0)));
    let mut i: usize = 0;
    while i < v.len()
        invariant
            i <= v@.len(),
            all == marks(v@),
            marks(out@) == sort_marks(all.take(i as int)),
        decreases v@.len() - i,
    {
        let m = v[i].clone();
        assert(all[i as int] == m@);
        place_marker(&mut out, m);
        i = i + 1;
        assert(all.take(i as int).drop_last() =~= all.take(i - 1));
    }
    assert(all.take(i as int) =~= all);
    out
}

fn find_last(entries: &Vec<([u8; 4], Vec<u8>)>, kind: &[u8; 4], id: u32, room: usize) -> (r: Option<
    usize,
>)
    requires
        room >= 4,
    ensures
        match r {
            Some(i) => i < entries@.len() && last_about(stored(entries@), kind@, id, room as int)
                == Some(entries@[i as int].1@) && entries@[i as int].1@.len() >= room,
            None => last_about(stored(entries@), kind@, id, room as int) is None,
        },
{
    let ghost all = stored(entries@);
    let mut i: usize = entries.len();
    assert(all.take(i as int) =~= all);
    while i > 0
        invariant
            i <= entries@.len(),
            room >= 4,
            all == stored(entries@),
            last_about(all.take(i as int), kind@, id, room as int) == last_about(
                all,
                kind@,
                id,
                room as int,
            ),
        decreases i,
    {
        let e = &entries[i - 1];
        proof {
            assert(all.take(i as int).last() == (e.0@, e.1@));
            assert(all.take(i as int).drop_last() =~= all.take(i - 1));
        }
        if same4(&e.0, kind) && e.1.len() >= room {
            match u32_at(e.1.as_slice(), 0) {
                Some(cue) => {
                    if cue == id {
                        return Some(i - 1);
                    }
                },
                None => {},
            }
        }
        i = i - 1;
    }
    assert(all.take(0).len() == 0);
    None
}

fn marker_at(points: &Vec<(u32, u32)>, entries: &Vec<([u8; 4], Vec<u8>)>, i: usize) -> (r: Marker)
    requires
        i < points@.len(),
    ensures
        r@ == marker_of(points@, stored(entries@), i as int),
{
    let id: u32 = points[i].0;
    let mut first = true;
    let mut j: usize = 0;
    while j < i
        invariant
            j <= i < points@.len(),
            id == points@[i as int].0,
            first == (forall|k: int| 0 <= k < j ==> (#[trigger] points@[k]).0 != id),
        decreases i - j,
    {
        if points[j].0 == id {
            first = false;
        }
        j = j + 1;
    }
    let mut length: usize = 0;
    let mut label = String::new();
    let mut note = String::new();
    if first {
        match find_last(entries, &LTXT, id, 8) {
            Some(at) => {
                let body = entries[at].1.as_slice();
                length = u32_at(body, 4).unwrap() as usize;
                label = mark_text(&LTXT, body);
            },
            None => {},
        }
        match find_last(entries, &LABL, id, 4) {
            Some(at) => {
                let name = mark_text(&LABL, entries[at].1.as_slice());
                if !name.as_str().is_empty() {
                    label = name;
                }
            },
            None => {},
        }
        match find_last(entries, &NOTE, id, 4) {
            Some(at) => {
                note = mark_text(&NOTE, entries[at].1.as_slice());
            },
            None => {},
        }
    }
    let m = Marker { id, frame: points[i].1 as usize, length, label, note };
    assert(m@ =~= marker_of(points@, stored(entries@), i as int));
    m
}

/// The markers at `points`, named by the subchunks in `entries`, in order.
pub fn markers(points: &Vec<(u32, u32)>, entries: &Vec<([u8; 4], Vec<u8>)>) -> (r: Vec<Marker>)
    ensures
        marks(r@) == markers_of(points@, stored(entries@)),
{
    let mut out: Vec<Marker> = Vec::new();
    let ghost all = Seq::new(
        points@.len(),
        |i: int| marker_of(points@, stored(entries@), i),
    );
    let mut i: usize = 0;
    while i < points.len()
        invariant
            i <= points@.len(),
            all == Seq::new(points@.len(), |i: int| marker_of(points@, stored(entries@), i)),
            marks(out@) == all.take(i as int),
        decreases points@.len() - i,
    {
        let ghost so_far = marks(out@);
        let m = marker_at(points, entries, i);
        out.push(m);
        i = i + 1;
        assert(marks(out@) =~= so_far.push(m@));
        assert(all.take(i as int) =~= all.take(i - 1).push(all[i - 1]));
    }
    assert(all.take(i as int) =~= all);
    sort_markers(out)
}


/// What is read next, of a file that is being scanned.
#[derive(Debug, Clone, Copy, PartialEq, Eq, Structural)]
pub enum Phase {
    Head,
    Header,
    Body,
    Done,
}

/// A request of the scanner: bytes of the file, or nothing more.
#[derive(Debug, Clone, Copy, PartialEq, Eq, Structural)]
pub enum Ask {
    Read { at: u64, count: u64 },
    Done,
}

/// Reads a file piece by piece: it says which bytes it wants next, and takes
/// them in.
pub struct Scanner {
    len: u64,
    pos: u64,
    phase: Phase,
    container: &'static str,
    format: Option<Format>,
    data: Option<(u64, u64)>,
    data_size_64: Option<u64>,
    bext: Option<Bext>,
    ixml: Option<String>,
    info: Vec<([u8; 4], String)>,
    points: Option<Vec<(u32, u32)>>,
    adtl: Vec<([u8; 4], Vec<u8>)>,
    chunks: Vec<Chunk>,
}

#[verifier::ext_equal]
pub struct ScannerView {
    pub len: u64,
    pub pos: u64,
    pub phase: Phase,
    pub container: Seq<char>,
    pub format: Option<Format>,
    pub data: Option<(u64, u64)>,
    pub data_size_64: Option<u64>,
    pub bext: Option<BextView>,
    pub ixml: Option<Seq<char>>,
    pub info: Seq<(Seq<u8>, Seq<char>)>,
    pub points: Option<Seq<(u32, u32)>>,
    pub adtl: Seq<(Seq<u8>, Seq<u8>)>,
    pub chunks: Seq<ChunkView>,
}

impl View for Scanner {
    type V = ScannerView;

    closed spec fn view(&self) -> ScannerView {
        ScannerView {
            len: self.len,
            pos: self.pos,
            phase: self.phase,
            container: self.container@,
            format: self.format,
            data: self.data,
            data_size_64: self.data_size_64,
            bext: bext_view(self.bext),
            ixml: text_view(self.ixml),
            info: named(self.info@),
            points: match self.points {
                Some(p) => Some(p@),
                None => None,
            },
            adtl: stored(self.adtl@),
            chunks: places(self.chunks@),
        }
    }
}

/// A scan of a file of `len` bytes before anything of it is read.
pub open spec fn scan_start(len: u64) -> ScannerView {
    ScannerView {
        len,
        pos: 0,
        phase: Phase::Head,
        container: Seq::empty(),
        format: None,
        data: None,
        data_size_64: None,
        bext: None,
        ixml: None,
        info: Seq::empty(),
        points: None,
        adtl: Seq::empty(),
        chunks: Seq::empty(),
    }
}

pub open spec fn least(a: int, b: int) -> int {
    if a <= b {
        a
    } else {
        b
    }
}

/// How much of what is wanted from `at` a file of `len` bytes has.
pub open spec fn there(len: int, at: int, wanted: int) -> int {
    if at >= len {
        0
    } else {
        least(wanted, len - at)
    }
}

/// What the file's first twelve bytes say it is.
pub open spec fn container_of(head: Seq<u8>) -> Option<Seq<char>> {
    if head.len() < 12 || head.subrange(8, 12) != WAVE@ {
        None
    } else if head.take(4) == RIFF@ {
        Some("WAV"@)
    } else if head.take(4) == RF64@ {
        Some("RF64"@)
    } else if head.take(4) == BW64@ {
        Some("BW64"@)
    } else {
        None
    }
}

/// The size of a chunk whose header stands at `pos` and says `size`. The
/// sample data of a long recording has its size in `ds64`. A recorder that
/// lost power mid-take can leave the size it writes at the end as zero: the
/// audio is still all there.
pub open spec fn real_size(id: Seq<u8>, size: int, wide: Option<u64>, len: int, pos: int) -> int {
    if id == DATA@ && size == 0xFFFF_FFFF && wide is Some {
        wide->0 as int
    } else if id == DATA@ && size == 0 {
        len - pos - 8
    } else {
        size
    }
}

impl ScannerView {
    /// The stretch of the file that is wanted next.
    pub open spec fn wants(self) -> (int, int) {
        match self.phase {
            Phase::Head => (0, there(self.len as int, 0, 12)),
            Phase::Header => (
                least(self.pos as int, self.len as int),
                there(self.len as int, self.pos as int, 8),
            ),
            Phase::Body => (
                self.chunks.last().start as int,
                least(
                    self.chunks.last().end - self.chunks.last().start,
                    METADATA_MAX as int,
                ),
            ),
            Phase::Done => (0, 0),
        }
    }

    /// A scan stays inside its file.
    pub open spec fn wf(self) -> bool {
        &&& self.pos <= self.len + 1
        &&& self.phase == Phase::Head ==> self.pos == 0
        &&& self.phase == Phase::Body ==> self.chunks.len() > 0
        &&& self.chunks.len() > 0 ==> self.chunks.last().start <= self.chunks.last().end
            <= self.len
        &&& self.data is Some ==> (self.data->0).0 <= (self.data->0).1 <= self.len
        &&& self.format is Some ==> self.format->0.channels > 0 && self.format->0.sample_rate > 0
        &&& forall|i: int|
            0 <= i < self.chunks.len() ==> (#[trigger] self.chunks[i]).start <= self.chunks[i].end
                <= self.len
    }

    /// Whether the body of a chunk with this id is read: a second `bext` or
    /// `iXML` is a writer's mistake, and readers take the first.
    pub open spec fn reads(self, id: Seq<u8>) -> bool {
        ||| id == DS64@
        ||| id == FMT@
        ||| id == BEXT@ && self.bext is None
        ||| id == IXML@ && self.ixml is None
        ||| id == CUE@
        ||| id == LIST@
    }

    /// After the header of the chunk at the scan's position. A recorder that
    /// stopped mid-take leaves a header claiming more than the file holds,
    /// so whatever is actually there is kept.
    #[verifier::opaque]
    pub open spec fn header(self, b: Seq<u8>) -> ScannerView {
        if b.len() < 8 {
            ScannerView { phase: Phase::Done, ..self }
        } else {
            let id = b.take(4);
            let size = real_size(
                id,
                u32_le(b, 4),
                self.data_size_64,
                self.len as int,
                self.pos as int,
            );
            let start = self.pos + 8;
            let end = least(start + size, self.len as int);
            ScannerView {
                pos: least(end + size % 2, u64::MAX as int) as u64,
                chunks: self.chunks.push(
                    ChunkView { id, start: start as u64, end: end as u64 },
                ),
                data: if id == DATA@ {
                    Some((start as u64, end as u64))
                } else {
                    self.data
                },
                phase: if self.reads(id) {
                    Phase::Body
                } else {
                    Phase::Header
                },
                ..self
            }
        }
    }

    /// After the body of the chunk whose header came last.
    #[verifier::opaque]
    pub open spec fn body(self, b: Seq<u8>) -> Result<ScannerView, Fault> {
        let id = self.chunks.last().id;
        let next = ScannerView { phase: Phase::Header, ..self };
        if id == DS64@ {
            Ok(
                ScannerView {
                    data_size_64: if b.len() < 16 {
                        None
                    } else {
                        Some(u64_le(b, 8) as u64)
                    },
                    ..next
                },
            )
        } else if id == FMT@ {
            match fmt_of(b) {
                Ok(f) => Ok(ScannerView { format: Some(f), ..next }),
                Err(why) => Err(Fault::Invalid(why)),
            }
        } else if id == BEXT@ {
            Ok(ScannerView { bext: bext_of(b), ..next })
        } else if id == IXML@ {
            Ok(ScannerView { ixml: Some(text_of(b)), ..next })
        } else if id == CUE@ {
            Ok(
                ScannerView {
                    points: Some(
                        match self.points {
                            Some(p) => p + cue_of(b),
                            None => cue_of(b),
                        },
                    ),
                    ..next
                },
            )
        } else if b.len() >= 4 && b.take(4) == INFO@ {
            Ok(ScannerView { info: self.info + info_of(b.skip(4)), ..next })
        } else if b.len() >= 4 && b.take(4) == ADTL@ {
            Ok(ScannerView { adtl: self.adtl + subchunks_of(b.skip(4)), ..next })
        } else {
            Ok(next)
        }
    }

    /// After the bytes that were wanted.
    pub open spec fn fed(self, b: Seq<u8>) -> Result<ScannerView, Fault> {
        match self.phase {
            Phase::Head => match container_of(b) {
                Some(container) => Ok(
                    ScannerView { container, pos: 12, phase: Phase::Header, ..self },
                ),
                None => Err(Fault::NotWav),
            },
            Phase::Header => Ok(self.header(b)),
            Phase::Body => self.body(b),
            Phase::Done => Ok(self),
        }
    }

    /// What the file holds, once it is scanned.
    pub open spec fn finished(self) -> Result<WavView, Fault> {
        match (self.format, self.data) {
            (None, _) => Err(Fault::Invalid("WAV file has no fmt chunk"@)),
            (Some(_), None) => Err(Fault::Invalid("WAV file has no data chunk"@)),
            (Some(f), Some(data)) => Ok(
                WavView {
                    container: self.container,
                    sample_rate: f.sample_rate,
                    channels: f.channels,
                    kind: f.kind,
                    data,
                    bext: self.bext,
                    ixml: self.ixml,
                    info: self.info,
                    cues: match self.points {
                        Some(points) => Some(markers_of(points, self.adtl)),
                        None => None,
                    },
                    chunks: self.chunks,
                },
            ),
        }
    }

    /// How far the scan is from its end, with what it reads next.
    pub open spec fn rank(self) -> nat {
        match self.phase {
            Phase::Head => 3,
            Phase::Body => 2,
            Phase::Header => 1,
            Phase::Done => 0,
        }
    }
}

/// The scan of the file `f` from `v` on.
pub open spec fn scanned(f: Seq<u8>, v: ScannerView) -> Result<ScannerView, Fault>
    decreases v.len + 1 - v.pos, v.rank(),
    when v.wf() && v.len == f.len()
    via scanned_ends
{
    if v.phase == Phase::Done {
        Ok(v)
    } else {
        let (at, count) = v.wants();
        match v.fed(f.subrange(at, at + count)) {
            Ok(next) => scanned(f, next),
            Err(why) => Err(why),
        }
    }
}

#[via_fn]
proof fn scanned_ends(f: Seq<u8>, v: ScannerView) {
    if v.phase != Phase::Done {
        let (at, count) = v.wants();
        lemma_fed_stays(v, f.subrange(at, at + count));
    }
}

pub proof fn lemma_fed_stays(v: ScannerView, b: Seq<u8>)
    requires
        v.wf(),
        b.len() <= v.wants().1,
    ensures
        v.fed(b) matches Ok(next) ==> {
            &&& next.wf()
            &&& next.len == v.len
            &&& v.phase != Phase::Done ==> next.pos > v.pos || (next.pos == v.pos && next.rank()
                < v.rank())
        },
{
    reveal(ScannerView::header);
    reveal(ScannerView::body);
    if v.phase == Phase::Header && b.len() >= 8 {
        let id = b.take(4);
        let size = real_size(id, u32_le(b, 4), v.data_size_64, v.len as int, v.pos as int);
        assert(size >= 0);
        let next = v.header(b);
        assert forall|i: int| 0 <= i < next.chunks.len() implies (#[trigger] next.chunks[i]).start
            <= next.chunks[i].end <= next.len by {
            if i < v.chunks.len() {
                assert(next.chunks[i] == v.chunks[i]);
            }
        }
    }
}

/// What the file `f` holds, or why it cannot be read.
pub open spec fn wav_of(f: Seq<u8>) -> Result<WavView, Fault> {
    match scanned(f, scan_start(f.len() as u64)) {
        Ok(v) => v.finished(),
        Err(why) => Err(why),
    }
}

/// Every chunk of a file, and its sample data, lies in the file.
pub proof fn chunks_lie_in_the_file(f: Seq<u8>)
    requires
        f.len() <= u64::MAX,
    ensures
        wav_of(f) matches Ok(w) ==> {
            &&& w.wf()
            &&& w.data.1 <= f.len()
            &&& forall|i: int|
                0 <= i < w.chunks.len() ==> (#[trigger] w.chunks[i]).start <= w.chunks[i].end
                    <= f.len()
        },
{
    lemma_scanned_stays(f, scan_start(f.len() as u64));
}

proof fn lemma_scanned_stays(f: Seq<u8>, v: ScannerView)
    requires
        v.wf(),
        v.len == f.len(),
    ensures
        scanned(f, v) matches Ok(end) ==> end.wf() && end.len == f.len(),
    decreases v.len + 1 - v.pos, v.rank(),
{
    if v.phase != Phase::Done {
        let (at, count) = v.wants();
        lemma_fed_stays(v, f.subrange(at, at + count));
        match v.fed(f.subrange(at, at + count)) {
            Ok(next) => {
                lemma_scanned_stays(f, next);
            },
            Err(_) => {},
        }
    }
}

fn container_name(head: &[u8]) -> (r: Option<&'static str>)
    ensures
        match r {
            Some(name) => container_of(head@) == Some(name@),
            None => container_of(head@) is None,
        },
{
    if head.len() < 12 {
        return None;
    }
    let magic = four(head, 0).unwrap();
    let form = four(head, 8).unwrap();
    assert(head@.subrange(0, 4) =~= head@.take(4));
    if !same4(&form, &WAVE) {
        None
    } else if same4(&magic, &RIFF) {
        Some("WAV")
    } else if same4(&magic, &RF64) {
        proof {
            assert(RF64@[1] != RIFF@[1]);
        }
        Some("RF64")
    } else if same4(&magic, &BW64) {
        Some("BW64")
    } else {
        None
    }
}

impl Scanner {
    /// A scan of a file of `len` bytes, with nothing read yet.
    pub fn new(len: u64) -> (r: Scanner)
        ensures
            r@ == scan_start(len),
            r@.wf(),
    {
        let r = Scanner {
            len,
            pos: 0,
            phase: Phase::Head,
            container: "",
            format: None,
            data: None,
            data_size_64: None,
            bext: None,
            ixml: None,
            info: Vec::new(),
            points: None,
            adtl: Vec::new(),
            chunks: Vec::new(),
        };
        proof {
            reveal_strlit("");
            assert(""@ =~= Seq::<char>::empty());
            assert(r@ =~~= scan_start(len));
        }
        r
    }

    /// The bytes that are wanted next.
    pub fn ask(&self) -> (r: Ask)
        requires
            self@.wf(),
        ensures
            match r {
                Ask::Read { at, count } => self@.phase != Phase::Done && self@.wants() == (
                    at as int,
                    count as int,
                ) && at + count <= self@.len,
                Ask::Done => self@.phase == Phase::Done,
            },
    {
        match self.phase {
            Phase::Head => Ask::Read {
                at: 0,
                count: if self.len < 12 {
                    self.len
                } else {
                    12
                },
            },
            Phase::Header => Ask::Read {
                at: if self.pos <= self.len {
                    self.pos
                } else {
                    self.len
                },
                count: if self.pos >= self.len {
                    0
                } else if self.len - self.pos < 8 {
                    self.len - self.pos
                } else {
                    8
                },
            },
            Phase::Body => {
                let last = self.chunks.len() - 1;
                assert(places(self.chunks@).last() == self.chunks@[last as int]@);
                let start: u64 = self.chunks[last].body.start;
                let end: u64 = self.chunks[last].body.end;
                Ask::Read {
                    at: start,
                    count: if end - start < METADATA_MAX {
                        end - start
                    } else {
                        METADATA_MAX
                    },
                }
            },
            Phase::Done => Ask::Done,
        }
    }

    /// Takes in the bytes that were wanted: fewer where the file ended
    /// first.
    pub fn feed(&mut self, b: &[u8]) -> (r: Result<(), Error>)
        requires
            old(self)@.wf(),
            b@.len() <= old(self)@.wants().1,
        ensures
            match r {
                Ok(_) => old(self)@.fed(b@) == Ok::<ScannerView, Fault>(final(self)@)
                    && final(self)@.wf(),
                Err(e) => old(self)@.fed(b@) == Err::<ScannerView, Fault>(e@),
            },
    {
        proof {
            lemma_fed_stays(self@, b@);
        }
        match self.phase {
            Phase::Head => {
                match container_name(b) {
                    Some(name) => {
                        self.container = name;
                        self.pos = 12;
                        self.phase = Phase::Header;
                        Ok(())
                    },
                    None => Err(Error::NotWav),
                }
            },
            Phase::Header => {
                self.feed_header(b);
                Ok(())
            },
            Phase::Body => self.feed_body(b),
            Phase::Done => Ok(()),
        }
    }

    fn feed_header(&mut self, b: &[u8])
        requires
            old(self)@.wf(),
            old(self)@.phase == Phase::Header,
            b@.len() <= old(self)@.wants().1,
        ensures
            final(self)@ == old(self)@.header(b@),
    {
        reveal(ScannerView::header);
        if b.len() < 8 {
            self.phase = Phase::Done;
            return ;
        }
        let id = four(b, 0).unwrap();
        assert(id@ =~= b@.take(4));
        let said: u32 = u32_at(b, 4).unwrap();
        let is_data = same4(&id, &DATA);
        let size: u64 = if is_data && said == 0xFFFF_FFFF && self.data_size_64.is_some() {
            self.data_size_64.unwrap()
        } else if is_data && said == 0 {
            self.len - self.pos - 8
        } else {
            said as u64
        };
        let start: u64 = self.pos + 8;
        let end: u64 = if self.len - start < size {
            self.len
        } else {
            start + size
        };
        let reads = same4(&id, &DS64) || same4(&id, &FMT) || (same4(&id, &BEXT)
            && self.bext.is_none()) || (same4(&id, &IXML) && self.ixml.is_none()) || same4(
            &id,
            &CUE,
        ) || same4(&id, &LIST);
        let chunk = Chunk { id, body: start..end };
        let ghost old_chunks = places(self.chunks@);
        self.chunks.push(chunk);
        assert(places(self.chunks@) =~= old_chunks.push(chunk@));
        if is_data {
            self.data = Some((start, end));
        }
        self.pos = end.saturating_add(size % 2);
        self.phase = if reads {
            Phase::Body
        } else {
            Phase::Header
        };
        assert(self@ =~~= old(self)@.header(b@));
    }

    fn feed_body(&mut self, b: &[u8]) -> (r: Result<(), Error>)
        requires
            old(self)@.wf(),
            old(self)@.phase == Phase::Body,
        ensures
            match r {
                Ok(_) => old(self)@.body(b@) == Ok::<ScannerView, Fault>(final(self)@),
                Err(e) => old(self)@.body(b@) == Err::<ScannerView, Fault>(e@),
            },
    {
        reveal(ScannerView::body);
        let last = self.chunks.len() - 1;
        assert(places(self.chunks@).last() == self.chunks@[last as int]@);
        let id = self.chunks[last].id;
        self.phase = Phase::Header;
        let ghost next = ScannerView { phase: Phase::Header, ..old(self)@ };
        assert(self@ =~~= next);
        if same4(&id, &DS64) {
            self.data_size_64 = u64_at(b, 8);
        } else if same4(&id, &FMT) {
            match parse_fmt(b) {
                Ok(f) => {
                    self.format = Some(f);
                },
                Err(e) => {
                    return Err(e);
                },
            }
        } else if same4(&id, &BEXT) {
            self.bext = parse_bext(b);
        } else if same4(&id, &IXML) {
            self.ixml = Some(text(b));
        } else if same4(&id, &CUE) {
            let mut more = parse_cue(b);
            match self.points.take() {
                Some(mut p) => {
                    p.append(&mut more);
                    self.points = Some(p);
                },
                None => {
                    self.points = Some(more);
                },
            }
        } else if b.len() >= 4 {
            let kind = four(b, 0).unwrap();
            assert(kind@ =~= b@.take(4));
            let rest = slice_subrange(b, 4, b.len());
            assert(rest@ =~= b@.skip(4));
            if same4(&kind, &INFO) {
                let mut more = parse_info(rest);
                let ghost a = self.info@;
                let ghost m = more@;
                self.info.append(&mut more);
                assert(named(self.info@) =~= named(a) + named(m));
            } else if same4(&kind, &ADTL) {
                let ghost a = self.adtl@;
                add_subchunks(&mut self.adtl, rest);
            }
        }
        assert(old(self)@.body(b@) matches Ok(v) && self@ =~~= v);
        Ok(())
    }

    /// What the file holds, once it is scanned.
    pub fn finish(self) -> (r: Result<Wav, Error>)
        requires
            self@.wf(),
        ensures
            match r {
                Ok(w) => self@.finished() == Ok::<WavView, Fault>(w@) && w@.wf(),
                Err(e) => self@.finished() == Err::<WavView, Fault>(e@),
            },
    {
        let format = match self.format {
            Some(f) => f,
            None => {
                return Err(Error::Invalid("WAV file has no fmt chunk".to_owned()));
            },
        };
        let data = match self.data {
            Some(d) => d,
            None => {
                return Err(Error::Invalid("WAV file has no data chunk".to_owned()));
            },
        };
        let ghost before = self@;
        let cues = match &self.points {
            Some(points) => Some(markers(points, &self.adtl)),
            None => None,
        };
        let w = Wav {
            container: self.container,
            sample_rate: format.sample_rate,
            channels: format.channels,
            kind: format.kind,
            data: Range { start: data.0, end: data.1 },
            bext: self.bext,
            ixml: self.ixml,
            info: self.info,
            cues,
            chunks: self.chunks,
        };
        assert(before.finished() matches Ok(v) && w@ =~~= v);
        Ok(w)
    }
}

/// Takes in the subchunks of `b`.
fn add_subchunks(out: &mut Vec<([u8; 4], Vec<u8>)>, b: &[u8])
    ensures
        stored(final(out)@) == stored(old(out)@) + subchunks_of(b@),
{
    let entries = subchunks(b);
    let ghost all = borrowed(entries@);
    let mut i: usize = 0;
    assert(all.take(0) =~= Seq::<(Seq<u8>, Seq<u8>)>::empty());
    assert(stored(out@) + all.take(0) =~= stored(out@));
    while i < entries.len()
        invariant
            i <= entries@.len(),
            all == borrowed(entries@),
            stored(out@) == stored(old(out)@) + all.take(i as int),
        decreases entries@.len() - i,
    {
        let ghost so_far = stored(out@);
        let body = slice_to_vec(entries[i].1);
        let ghost added = body@;
        out.push((entries[i].0, body));
        i = i + 1;
        assert(stored(out@) =~= so_far.push((entries@[i - 1].0@, added)));
        assert(all.take(i as int) =~= all.take(i - 1).push(all[i - 1]));
        assert(stored(out@) =~= stored(old(out)@) + all.take(i as int));
    }
    assert(all.take(i as int) =~= all);
}

/// What the bytes of a file say it holds.
pub fn parse(file: &[u8]) -> (r: Result<Wav, Error>)
    ensures
        match r {
            Ok(w) => wav_of(file@) == Ok::<WavView, Fault>(w@) && w@.wf(),
            Err(e) => wav_of(file@) == Err::<WavView, Fault>(e@),
        },
{
    let mut scanner = Scanner::new(file.len() as u64);
    loop
        invariant
            scanner@.wf(),
            scanner@.len == file@.len() <= usize::MAX,
            scanned(file@, scanner@) == scanned(file@, scan_start(file@.len() as u64)),
        ensures
            scanner@.wf(),
            scanner@.phase == Phase::Done,
            scanned(file@, scanner@) == scanned(file@, scan_start(file@.len() as u64)),
        decreases scanner@.len + 1 - scanner@.pos, scanner@.rank(),
    {
        match scanner.ask() {
            Ask::Done => {
                break;
            },
            Ask::Read { at, count } => {
                let piece = slice_subrange(file, at as usize, (at + count) as usize);
                proof {
                    lemma_fed_stays(scanner@, piece@);
                }
                match scanner.feed(piece) {
                    Ok(_) => {},
                    Err(e) => {
                        return Err(e);
                    },
                }
            },
        }
    }
    scanner.finish()
}

/// `body` packed as a subchunk: its kind, its length and padding to an even
/// length.
pub open spec fn packed(e: (Seq<u8>, Seq<u8>)) -> Seq<u8> {
    e.0 + le4(e.1.len() as u32) + e.1 + if e.1.len() % 2 == 1 {
        seq![0u8]
    } else {
        Seq::empty()
    }
}

/// Subchunks packed one behind another.
pub open spec fn packed_all(entries: Seq<(Seq<u8>, Seq<u8>)>) -> Seq<u8>
    decreases entries.len(),
{
    if entries.len() == 0 {
        Seq::empty()
    } else {
        packed_all(entries.drop_last()) + packed(entries.last())
    }
}

pub fn subchunk(out: &mut Vec<u8>, id: &[u8; 4], body: &[u8])
    ensures
        final(out)@ == old(out)@ + packed((id@, body@)),
{
    put(out, id.as_slice());
    put_u32(
        out,
        #[verifier::truncate]
        (body.len() as u32),
    );
    put(out, body);
    if body.len() % 2 == 1 {
        out.push(0);
    }
    assert(out@ =~= old(out)@ + packed((id@, body@)));
}

/// A file's marks as stored: its cue points and its `LIST/adtl`
/// subchunks, so that a save writes back whatever an edit left alone.
pub struct StoredMarks {
    points: Vec<[u8; 24]>,
    adtl: Vec<([u8; 4], Vec<u8>)>,
}

#[verifier::ext_equal]
pub struct StoredMarksView {
    pub points: Seq<Seq<u8>>,
    pub adtl: Seq<(Seq<u8>, Seq<u8>)>,
}

impl StoredMarksView {
    /// Whether each cue point is whole and each subchunk has its id.
    pub open spec fn whole(self) -> bool {
        &&& forall|i: int| 0 <= i < self.points.len() ==> (#[trigger] self.points[i]).len() == 24
        &&& forall|i: int| 0 <= i < self.adtl.len() ==> (#[trigger] self.adtl[i]).0.len() == 4
    }
}

impl View for StoredMarks {
    type V = StoredMarksView;

    closed spec fn view(&self) -> StoredMarksView {
        StoredMarksView { points: blocks(self.points@), adtl: stored(self.adtl@) }
    }
}

impl Default for StoredMarks {
    fn default() -> (r: Self)
        ensures
            r@.points.len() == 0,
            r@.adtl.len() == 0,
    {
        StoredMarks { points: Vec::new(), adtl: Vec::new() }
    }
}

impl StoredMarks {
    /// Takes in a `cue ` chunk's body.
    pub fn add_cue(&mut self, body: &[u8])
        ensures
            final(self)@.points == old(self)@.points + cue_points_of(body@),
            final(self)@.adtl == old(self)@.adtl,
    {
        let mut more = cue_points(body);
        let ghost a = self.points@;
        let ghost m = more@;
        self.points.append(&mut more);
        assert(blocks(self.points@) =~= blocks(a) + blocks(m));
    }

    /// Takes in a `LIST/adtl` chunk's subchunks.
    pub fn add_adtl(&mut self, entries: &[u8])
        ensures
            final(self)@.points == old(self)@.points,
            final(self)@.adtl == old(self)@.adtl + subchunks_of(entries@),
    {
        add_subchunks(&mut self.adtl, entries);
    }
}

/// Marks that are stored are whole.
pub proof fn stored_marks_are_whole(s: StoredMarks)
    ensures
        s@.whole(),
{
    assert forall|i: int| 0 <= i < s@.points.len() implies (#[trigger] s@.points[i]).len() == 24 by {
        assert(s@.points[i] == s.points@[i]@);
    }
    assert forall|i: int| 0 <= i < s@.adtl.len() implies (#[trigger] s@.adtl[i]).0.len() == 4 by {
        assert(s@.adtl[i].0 == s.adtl@[i].0@);
    }
}

/// Where the first item of `s` at or after `i` that `p` holds of stands, or
/// the end of `s`.
pub open spec fn first_index<A>(s: Seq<A>, p: spec_fn(A) -> bool, i: int) -> int
    decreases s.len() - i,
{
    if i >= s.len() {
        s.len() as int
    } else if p(s[i]) {
        i
    } else {
        first_index(s, p, i + 1)
    }
}

pub proof fn lemma_first_index<A>(s: Seq<A>, p: spec_fn(A) -> bool, i: int)
    requires
        0 <= i <= s.len(),
    ensures
        i <= first_index(s, p, i) <= s.len(),
        first_index(s, p, i) < s.len() ==> p(s[first_index(s, p, i)]),
        forall|j: int| i <= j < first_index(s, p, i) ==> !p(#[trigger] s[j]),
    decreases s.len() - i,
{
    if i < s.len() && !p(s[i]) {
        lemma_first_index(s, p, i + 1);
    }
}

/// `n`, or the most that four bytes hold.
pub open spec fn capped(n: usize) -> u32 {
    if n <= u32::MAX {
        n as u32
    } else {
        u32::MAX
    }
}

fn cap(n: usize) -> (r: u32)
    ensures
        r == capped(n),
{
    if n as u64 <= 0xFFFF_FFFF {
        n as u32
    } else {
        0xFFFF_FFFF
    }
}

pub open spec fn zeros(n: nat) -> Seq<u8> {
    Seq::new(n, |i: int| 0u8)
}

/// The cue point of `m` as it is stored, where it still is, or as it is
/// written anew.
pub open spec fn point_bytes(m: MarkerView, points: Seq<Seq<u8>>) -> Seq<u8> {
    let at = first_index(points, |p: Seq<u8>| point_of(p) == (m.id, capped(m.frame)), 0);
    if at < points.len() {
        points[at]
    } else {
        le4(m.id) + le4(capped(m.frame)) + DATA@ + zeros(8) + le4(capped(m.frame))
    }
}

/// The cue points of `ms`, one behind another.
pub open spec fn all_points(ms: Seq<MarkerView>, points: Seq<Seq<u8>>) -> Seq<u8>
    decreases ms.len(),
{
    if ms.len() == 0 {
        Seq::empty()
    } else {
        all_points(ms.drop_last(), points) + point_bytes(ms.last(), points)
    }
}

/// Every cue point takes up the same room.
proof fn lemma_points_len(ms: Seq<MarkerView>, points: Seq<Seq<u8>>)
    requires
        forall|i: int| 0 <= i < points.len() ==> (#[trigger] points[i]).len() == 24,
    ensures
        all_points(ms, points).len() == 24 * ms.len(),
    decreases ms.len(),
{
    if ms.len() > 0 {
        let m = ms.last();
        lemma_points_len(ms.drop_last(), points);
        lemma_first_index(points, |p: Seq<u8>| point_of(p) == (m.id, capped(m.frame)), 0);
        assert(point_bytes(m, points).len() == 24);
    }
}

/// Where the first stored subchunk of this kind stands that gives `m` this
/// text.
pub open spec fn text_index(
    entries: Seq<(Seq<u8>, Seq<u8>)>,
    kind: Seq<u8>,
    id: u32,
    value: Seq<char>,
) -> int {
    first_index(
        entries,
        |e: (Seq<u8>, Seq<u8>)| about(e, kind, id, 4) && mark_text_of(kind, e.1) == value,
        0,
    )
}

/// Whether a stored `labl` still names `m`.
pub open spec fn label_kept(m: MarkerView, entries: Seq<(Seq<u8>, Seq<u8>)>) -> bool {
    m.label.len() > 0 && text_index(entries, LABL@, m.id, m.label) < entries.len()
}

/// Where the first stored `ltxt` stands that still fits `m`. Some writers
/// name a region in its `ltxt`, which reads as the marker's name where no
/// `labl` names it: kept only while it still names the marker, or while a
/// kept `labl` names it.
pub open spec fn region_index(m: MarkerView, entries: Seq<(Seq<u8>, Seq<u8>)>) -> int {
    first_index(
        entries,
        |e: (Seq<u8>, Seq<u8>)|
            about(e, LTXT@, m.id, 8) && u32_le(e.1, 4) == capped(m.length) && (mark_text_of(
                LTXT@,
                e.1,
            ).len() == 0 || mark_text_of(LTXT@, e.1) == m.label || label_kept(m, entries)),
        0,
    )
}

/// Whether the region of `m` is stored with its name in it.
pub open spec fn named_in_region(m: MarkerView, entries: Seq<(Seq<u8>, Seq<u8>)>) -> bool {
    let at = region_index(m, entries);
    m.length > 0 && m.label.len() > 0 && at < entries.len() && mark_text_of(LTXT@, entries[at].1)
        == m.label
}

/// The `ltxt` for `m`, where it is a region.
pub open spec fn region_entry(
    m: MarkerView,
    entries: Seq<(Seq<u8>, Seq<u8>)>,
) -> Seq<(Seq<u8>, Seq<u8>)> {
    let at = region_index(m, entries);
    if m.length == 0 {
        Seq::empty()
    } else if at < entries.len() {
        seq![(LTXT@, entries[at].1)]
    } else {
        seq![(LTXT@, le4(m.id) + le4(capped(m.length)) + RGN@ + zeros(8))]
    }
}

/// The `labl` or `note` that gives `m` this text: as stored where it is,
/// and none where the text is empty or `elsewhere` already.
pub open spec fn text_entry(
    kind: Seq<u8>,
    id: u32,
    value: Seq<char>,
    entries: Seq<(Seq<u8>, Seq<u8>)>,
    elsewhere: bool,
) -> Seq<(Seq<u8>, Seq<u8>)> {
    let at = text_index(entries, kind, id, value);
    if value.len() == 0 {
        Seq::empty()
    } else if at < entries.len() {
        seq![(kind, entries[at].1)]
    } else if elsewhere {
        Seq::empty()
    } else {
        seq![(kind, le4(id) + encode_utf8(value) + seq![0u8])]
    }
}

/// The subchunks that say what there is to say of `m`.
pub open spec fn mark_entries(
    m: MarkerView,
    entries: Seq<(Seq<u8>, Seq<u8>)>,
) -> Seq<(Seq<u8>, Seq<u8>)> {
    region_entry(m, entries) + text_entry(
        LABL@,
        m.id,
        m.label,
        entries,
        named_in_region(m, entries),
    ) + text_entry(NOTE@, m.id, m.note, entries, false)
}

/// The subchunks that say what there is to say of all of `ms`.
pub open spec fn all_entries(
    ms: Seq<MarkerView>,
    entries: Seq<(Seq<u8>, Seq<u8>)>,
) -> Seq<(Seq<u8>, Seq<u8>)>
    decreases ms.len(),
{
    if ms.len() == 0 {
        Seq::empty()
    } else {
        all_entries(ms.drop_last(), entries) + mark_entries(ms.last(), entries)
    }
}

/// The subchunks of `entries` that are of other kinds, which are carried
/// over.
pub open spec fn other_entries(entries: Seq<(Seq<u8>, Seq<u8>)>) -> Seq<(Seq<u8>, Seq<u8>)>
    decreases entries.len(),
{
    if entries.len() == 0 {
        Seq::empty()
    } else {
        let kind = entries.last().0;
        if kind == LABL@ || kind == NOTE@ || kind == LTXT@ {
            other_entries(entries.drop_last())
        } else {
            other_entries(entries.drop_last()).push(entries.last())
        }
    }
}

/// Everything that goes into the `LIST/adtl` for `ms`.
pub open spec fn adtl_entries(
    ms: Seq<MarkerView>,
    st: StoredMarksView,
) -> Seq<(Seq<u8>, Seq<u8>)> {
    all_entries(ms, st.adtl) + other_entries(st.adtl)
}

/// The `cue ` body for `ms`, and the `LIST/adtl` body naming them when there
/// is anything to put in one.
pub open spec fn mark_bodies_of(
    ms: Seq<MarkerView>,
    st: StoredMarksView,
) -> (Seq<u8>, Option<Seq<u8>>) {
    (
        le4(ms.len() as u32) + all_points(ms, st.points),
        if adtl_entries(ms, st).len() == 0 {
            None
        } else {
            Some(ADTL@ + packed_all(adtl_entries(ms, st)))
        },
    )
}

proof fn lemma_packed_all_add(a: Seq<(Seq<u8>, Seq<u8>)>, b: Seq<(Seq<u8>, Seq<u8>)>)
    ensures
        packed_all(a + b) == packed_all(a) + packed_all(b),
    decreases b.len(),
{
    if b.len() == 0 {
        assert(a + b =~= a);
        assert(packed_all(a) + packed_all(b) =~= packed_all(a));
    } else {
        assert((a + b).drop_last() =~= a + b.drop_last());
        lemma_packed_all_add(a, b.drop_last());
        assert(packed_all(a + b) =~= packed_all(a) + packed_all(b));
    }
}

proof fn lemma_packed_one(e: (Seq<u8>, Seq<u8>))
    ensures
        packed_all(seq![e]) == packed(e),
{
    reveal_with_fuel(packed_all, 2);
    assert(packed_all(seq![e]) =~= packed(e));
}

proof fn lemma_packed_all_len(entries: Seq<(Seq<u8>, Seq<u8>)>)
    ensures
        packed_all(entries).len() >= 4 * entries.len(),
    decreases entries.len(),
{
    if entries.len() > 0 {
        lemma_packed_all_len(entries.drop_last());
    }
}

impl StoredMarks {
    fn find_point(&self, id: u32, frame: u32) -> (r: Option<usize>)
        ensures
            ({
                let at = first_index(
                    self@.points,
                    |p: Seq<u8>| point_of(p) == (id, frame),
                    0,
                );
                match r {
                    Some(i) => i == at && i < self@.points.len(),
                    None => at >= self@.points.len(),
                }
            }),
    {
        let ghost p = |p: Seq<u8>| point_of(p) == (id, frame);
        let mut i: usize = 0;
        while i < self.points.len()
            invariant
                i <= self.points@.len(),
                p == (|p: Seq<u8>| point_of(p) == (id, frame)),
                first_index(self@.points, p, 0) == first_index(self@.points, p, i as int),
            decreases self.points@.len() - i,
        {
            let found = point(&self.points[i]);
            assert(self@.points[i as int] == self.points@[i as int]@);
            if found.0 == id && found.1 == frame {
                return Some(i);
            }
            i = i + 1;
        }
        None
    }

    fn find_text(&self, kind: &[u8; 4], id: u32, value: &str) -> (r: Option<usize>)
        ensures
            ({
                let at = text_index(self@.adtl, kind@, id, value@);
                match r {
                    Some(i) => i == at && i < self@.adtl.len(),
                    None => at >= self@.adtl.len(),
                }
            }),
    {
        let ghost p = |e: (Seq<u8>, Seq<u8>)|
            about(e, kind@, id, 4) && mark_text_of(kind@, e.1) == value@;
        let mut i: usize = 0;
        while i < self.adtl.len()
            invariant
                i <= self.adtl@.len(),
                p == (|e: (Seq<u8>, Seq<u8>)|
                    about(e, kind@, id, 4) && mark_text_of(kind@, e.1) == value@),
                first_index(self@.adtl, p, 0) == first_index(self@.adtl, p, i as int),
            decreases self.adtl@.len() - i,
        {
            let e = &self.adtl[i];
            assert(self@.adtl[i as int] == (e.0@, e.1@));
            if same4(&e.0, kind) {
                match u32_at(e.1.as_slice(), 0) {
                    Some(cue) => {
                        if cue == id {
                            let said = mark_text(kind, e.1.as_slice());
                            if same(said.as_str(), value) {
                                return Some(i);
                            }
                        }
                    },
                    None => {},
                }
            }
            i = i + 1;
        }
        None
    }

    fn find_region(&self, m: &Marker) -> (r: Option<usize>)
        ensures
            ({
                let at = region_index(m@, self@.adtl);
                match r {
                    Some(i) => i == at && i < self@.adtl.len(),
                    None => at >= self@.adtl.len(),
                }
            }),
    {
        let length = cap(m.length);
        let kept = !m.label.as_str().is_empty() && self.find_text(
            &LABL,
            m.id,
            m.label.as_str(),
        ).is_some();
        let ghost entries = self@.adtl;
        let ghost p = |e: (Seq<u8>, Seq<u8>)|
            about(e, LTXT@, m@.id, 8) && u32_le(e.1, 4) == capped(m@.length) && (mark_text_of(
                LTXT@,
                e.1,
            ).len() == 0 || mark_text_of(LTXT@, e.1) == m@.label || label_kept(m@, entries));
        let mut i: usize = 0;
        while i < self.adtl.len()
            invariant
                i <= self.adtl@.len(),
                entries == self@.adtl,
                length == capped(m@.length),
                kept == label_kept(m@, entries),
                p == (|e: (Seq<u8>, Seq<u8>)|
                    about(e, LTXT@, m@.id, 8) && u32_le(e.1, 4) == capped(m@.length) && (
                    mark_text_of(LTXT@, e.1).len() == 0 || mark_text_of(LTXT@, e.1) == m@.label
                        || label_kept(m@, entries))),
                first_index(entries, p, 0) == first_index(entries, p, i as int),
            decreases self.adtl@.len() - i,
        {
            let e = &self.adtl[i];
            assert(entries[i as int] == (e.0@, e.1@));
            if same4(&e.0, &LTXT) {
                match (u32_at(e.1.as_slice(), 0), u32_at(e.1.as_slice(), 4)) {
                    (Some(cue), Some(said)) => {
                        if cue == m.id && said == length {
                            let name = mark_text(&LTXT, e.1.as_slice());
                            if name.as_str().is_empty() || same(name.as_str(), m.label.as_str())
                                || kept {
                                return Some(i);
                            }
                        }
                    },
                    _ => {},
                }
            }
            i = i + 1;
        }
        None
    }

    /// Puts the subchunk that gives `m` its name or its note behind `out`.
    fn put_text(
        &self,
        out: &mut Vec<u8>,
        kind: &[u8; 4],
        id: u32,
        value: &str,
        elsewhere: bool,
    )
        ensures
            final(out)@ == old(out)@ + packed_all(
                text_entry(kind@, id, value@, self@.adtl, elsewhere),
            ),
    {
        let ghost e = text_entry(kind@, id, value@, self@.adtl, elsewhere);
        if value.is_empty() {
            assert(out@ + packed_all(e) =~= out@);
            return ;
        }
        match self.find_text(kind, id, value) {
            Some(i) => {
                assert(self@.adtl[i as int] == (self.adtl@[i as int].0@, self.adtl@[i as int].1@));
                subchunk(out, kind, self.adtl[i].1.as_slice());
                proof {
                    lemma_packed_one((kind@, self.adtl@[i as int].1@));
                }
            },
            None => {
                if elsewhere {
                    assert(out@ + packed_all(e) =~= out@);
                } else {
                    let mut body: Vec<u8> = Vec::new();
                    put_u32(&mut body, id);
                    put(&mut body, value.as_bytes());
                    body.push(0);
                    assert(body@ =~= le4(id) + encode_utf8(value@) + seq![0u8]);
                    subchunk(out, kind, body.as_slice());
                    proof {
                        lemma_packed_one((kind@, body@));
                    }
                }
            },
        }
    }

    /// Puts the subchunks that say what there is to say of `m` behind `out`.
    fn put_marker(&self, out: &mut Vec<u8>, m: &Marker)
        ensures
            final(out)@ == old(out)@ + packed_all(mark_entries(m@, self@.adtl)),
    {
        let ghost start = out@;
        let ghost region = region_entry(m@, self@.adtl);
        let mut in_region = false;
        if m.length > 0 {
            match self.find_region(m) {
                Some(i) => {
                    let body = self.adtl[i].1.as_slice();
                    assert(self@.adtl[i as int] == (self.adtl@[i as int].0@, body@));
                    let name = mark_text(&LTXT, body);
                    in_region = !m.label.as_str().is_empty() && same(
                        name.as_str(),
                        m.label.as_str(),
                    );
                    subchunk(out, &LTXT, body);
                    proof {
                        lemma_packed_one((LTXT@, body@));
                    }
                },
                None => {
                    let mut body: Vec<u8> = Vec::new();
                    put_u32(&mut body, m.id);
                    put_u32(&mut body, cap(m.length));
                    put(&mut body, RGN.as_slice());
                    put_u32(&mut body, 0);
                    put_u32(&mut body, 0);
                    assert(body@ =~= le4(m.id) + le4(capped(m.length)) + RGN@ + zeros(8));
                    subchunk(out, &LTXT, body.as_slice());
                    proof {
                        lemma_packed_one((LTXT@, body@));
                    }
                },
            }
        }
        assert(out@ =~= start + packed_all(region));
        self.put_text(out, &LABL, m.id, m.label.as_str(), in_region);
        self.put_text(out, &NOTE, m.id, m.note.as_str(), false);
        proof {
            let label = text_entry(
                LABL@,
                m.id,
                m.label@,
                self@.adtl,
                named_in_region(m@, self@.adtl),
            );
            let note = text_entry(NOTE@, m.id, m.note@, self@.adtl, false);
            lemma_packed_all_add(region, label);
            lemma_packed_all_add(region + label, note);
            assert(out@ =~= start + packed_all(mark_entries(m@, self@.adtl)));
        }
    }

    /// Puts the stored subchunks of other kinds behind `out`.
    fn put_others(&self, out: &mut Vec<u8>)
        ensures
            final(out)@ == old(out)@ + packed_all(other_entries(self@.adtl)),
    {
        let ghost start = out@;
        let ghost all = self@.adtl;
        let mut i: usize = 0;
        assert(all.take(0) =~= Seq::<(Seq<u8>, Seq<u8>)>::empty());
        assert(out@ =~= start + packed_all(other_entries(all.take(0))));
        while i < self.adtl.len()
            invariant
                i <= self.adtl@.len(),
                all == self@.adtl,
                out@ == start + packed_all(other_entries(all.take(i as int))),
            decreases self.adtl@.len() - i,
        {
            let e = &self.adtl[i];
            assert(all[i as int] == (e.0@, e.1@));
            assert(all.take(i + 1).drop_last() =~= all.take(i as int));
            let ghost so_far = other_entries(all.take(i as int));
            if !same4(&e.0, &LABL) && !same4(&e.0, &NOTE) && !same4(&e.0, &LTXT) {
                subchunk(out, &e.0, e.1.as_slice());
                assert(so_far.push((e.0@, e.1@)).drop_last() =~= so_far);
                assert(out@ =~= start + packed_all(so_far.push((e.0@, e.1@))));
            }
            i = i + 1;
        }
        assert(all.take(i as int) =~= all);
    }
}

/// The `cue ` body for `markers`, and the `LIST/adtl` body naming them when
/// there is anything to put in one: an `ltxt` with the length of each
/// region, a `labl` with each name and a `note` with each note. Whatever of
/// a marker is still as `stored` has it goes back as it was stored, and
/// `stored` subchunks of other kinds are carried over.
pub fn mark_bodies(markers: &[Marker], stored: &StoredMarks) -> (r: (Vec<u8>, Option<Vec<u8>>))
    ensures
        r.0@ == mark_bodies_of(marks(markers@), stored@).0,
        r.0@.len() == 4 + 24 * markers@.len(),
        match r.1 {
            Some(adtl) => mark_bodies_of(marks(markers@), stored@).1 == Some(adtl@),
            None => mark_bodies_of(marks(markers@), stored@).1 is None,
        },
{
    let ghost ms = marks(markers@);
    proof {
        stored_marks_are_whole(*stored);
        lemma_points_len(ms, stored@.points);
    }
    let mut cue: Vec<u8> = Vec::new();
    put_u32(
        &mut cue,
        #[verifier::truncate]
        (markers.len() as u32),
    );
    let mut adtl: Vec<u8> = Vec::new();
    put(&mut adtl, ADTL.as_slice());
    let mut i: usize = 0;
    proof {
        assert(ms.take(0) =~= Seq::<MarkerView>::empty());
        assert(cue@ =~= le4(ms.len() as u32) + all_points(ms.take(0), stored@.points));
        assert(adtl@ =~= ADTL@ + packed_all(all_entries(ms.take(0), stored@.adtl)));
    }
    while i < markers.len()
        invariant
            i <= markers@.len(),
            ms == marks(markers@),
            cue@ == le4(ms.len() as u32) + all_points(ms.take(i as int), stored@.points),
            adtl@ == ADTL@ + packed_all(all_entries(ms.take(i as int), stored@.adtl)),
        decreases markers@.len() - i,
    {
        let m = &markers[i];
        assert(ms[i as int] == m@);
        assert(ms.take(i + 1).drop_last() =~= ms.take(i as int));
        let frame = cap(m.frame);
        let ghost cue_before = cue@;
        match stored.find_point(m.id, frame) {
            Some(at) => {
                assert(stored@.points[at as int] == stored.points@[at as int]@);
                put(&mut cue, stored.points[at].as_slice());
            },
            None => {
                put_u32(&mut cue, m.id);
                put_u32(&mut cue, frame);
                put(&mut cue, DATA.as_slice());
                put_u32(&mut cue, 0);
                put_u32(&mut cue, 0);
                put_u32(&mut cue, frame);
            },
        }
        assert(cue@ =~= cue_before + point_bytes(m@, stored@.points));
        assert(cue@ =~= le4(ms.len() as u32) + all_points(ms.take(i + 1), stored@.points));
        stored.put_marker(&mut adtl, m);
        proof {
            lemma_packed_all_add(
                all_entries(ms.take(i as int), stored@.adtl),
                mark_entries(m@, stored@.adtl),
            );
            assert(adtl@ =~= ADTL@ + packed_all(all_entries(ms.take(i + 1), stored@.adtl)));
        }
        i = i + 1;
    }
    assert(ms.take(i as int) =~= ms);
    stored.put_others(&mut adtl);
    proof {
        lemma_packed_all_add(all_entries(ms, stored@.adtl), other_entries(stored@.adtl));
        lemma_packed_all_len(adtl_entries(ms, stored@));
        assert(adtl@ =~= ADTL@ + packed_all(adtl_entries(ms, stored@)));
    }
    if adtl.len() > 4 {
        (cue, Some(adtl))
    } else {
        (cue, None)
    }
}

/// Where the first of the `unused` entries stands that has this id and text.
pub open spec fn entry_index(unused: Seq<(Seq<u8>, Seq<u8>)>, e: (Seq<u8>, Seq<char>)) -> int {
    first_index(unused, |u: (Seq<u8>, Seq<u8>)| u.0 == e.0 && text_of(u.1) == e.1, 0)
}

/// The `LIST/INFO` entries as they are written: each that is stored with the
/// same text goes back as it was stored, and each stored one goes back once.
pub open spec fn info_entries(
    entries: Seq<(Seq<u8>, Seq<char>)>,
    unused: Seq<(Seq<u8>, Seq<u8>)>,
) -> Seq<(Seq<u8>, Seq<u8>)>
    decreases entries.len(),
{
    if entries.len() == 0 {
        Seq::empty()
    } else {
        let at = entry_index(unused, entries[0]);
        if at < unused.len() {
            seq![(entries[0].0, unused[at].1)] + info_entries(entries.skip(1), unused.remove(at))
        } else {
            seq![(entries[0].0, encode_utf8(entries[0].1) + seq![0u8])] + info_entries(
                entries.skip(1),
                unused,
            )
        }
    }
}

/// A `LIST/INFO` body.
pub open spec fn info_body_of(
    entries: Seq<(Seq<u8>, Seq<char>)>,
    unused: Seq<(Seq<u8>, Seq<u8>)>,
) -> Seq<u8> {
    INFO@ + packed_all(info_entries(entries, unused))
}

fn find_entry(unused: &Vec<([u8; 4], Vec<u8>)>, id: &[u8; 4], value: &str) -> (r: Option<usize>)
    ensures
        ({
            let at = entry_index(stored(unused@), (id@, value@));
            match r {
                Some(i) => i == at && i < unused@.len(),
                None => at >= unused@.len(),
            }
        }),
{
    let ghost p = |u: (Seq<u8>, Seq<u8>)| u.0 == (id@, value@).0 && text_of(u.1) == (id@, value@).1;
    let mut i: usize = 0;
    while i < unused.len()
        invariant
            i <= unused@.len(),
            p == (|u: (Seq<u8>, Seq<u8>)|
                u.0 == (id@, value@).0 && text_of(u.1) == (id@, value@).1),
            first_index(stored(unused@), p, 0) == first_index(stored(unused@), p, i as int),
        decreases unused@.len() - i,
    {
        let e = &unused[i];
        assert(stored(unused@)[i as int] == (e.0@, e.1@));
        if same4(&e.0, id) {
            let said = text(e.1.as_slice());
            if same(said.as_str(), value) {
                return Some(i);
            }
        }
        i = i + 1;
    }
    assert(stored(unused@).len() == unused@.len());
    None
}

fn copy_entries(s: &[([u8; 4], Vec<u8>)]) -> (r: Vec<([u8; 4], Vec<u8>)>)
    ensures
        stored(r@) == stored(s@),
{
    let mut out: Vec<([u8; 4], Vec<u8>)> = Vec::new();
    let mut i: usize = 0;
    while i < s.len()
        invariant
            i <= s@.len(),
            stored(out@) == stored(s@).take(i as int),
        decreases s@.len() - i,
    {
        let ghost so_far = stored(out@);
        let body = slice_to_vec(s[i].1.as_slice());
        let ghost added = body@;
        out.push((s[i].0, body));
        i = i + 1;
        assert(stored(out@) =~= so_far.push((s@[i - 1].0@, added)));
        assert(stored(s@).take(i as int) =~= stored(s@).take(i - 1).push(stored(s@)[i - 1]));
    }
    assert(stored(s@).take(i as int) =~= stored(s@));
    out
}

/// A `LIST/INFO` body for `entries`. An entry of `kept`, the file's own,
/// with the same id and text goes back as it was stored.
pub fn info_body(entries: &[([u8; 4], String)], kept: &[([u8; 4], Vec<u8>)]) -> (r: Vec<u8>)
    ensures
        r@ == info_body_of(named(entries@), stored(kept@)),
{
    let ghost all = named(entries@);
    let mut unused = copy_entries(kept);
    let mut out: Vec<u8> = Vec::new();
    put(&mut out, INFO.as_slice());
    let mut i: usize = 0;
    proof {
        assert(all.skip(0) =~= all);
        assert(out@ + packed_all(info_entries(all.skip(0), stored(unused@))) =~= info_body_of(
            all,
            stored(kept@),
        ));
    }
    while i < entries.len()
        invariant
            i <= entries@.len(),
            all == named(entries@),
            out@ + packed_all(info_entries(all.skip(i as int), stored(unused@))) == info_body_of(
                all,
                stored(kept@),
            ),
        decreases entries@.len() - i,
    {
        let ghost before = out@;
        let ghost had = stored(unused@);
        let ghost rest = all.skip(i as int);
        let ghost later = all.skip(i + 1);
        let id = &entries[i].0;
        let value = entries[i].1.as_str();
        proof {
            assert(rest[0] == (id@, value@));
            assert(rest.skip(1) =~= later);
        }
        match find_entry(&unused, id, value) {
            Some(at) => {
                let e = unused.remove(at);
                subchunk(&mut out, id, e.1.as_slice());
                proof {
                    assert(stored(unused@) =~= had.remove(at as int));
                    assert(had[at as int].1 == e.1@);
                    lemma_packed_one((id@, e.1@));
                    lemma_packed_all_add(
                        seq![(id@, e.1@)],
                        info_entries(later, stored(unused@)),
                    );
                    assert(out@ + packed_all(info_entries(later, stored(unused@))) =~= before
                        + packed_all(info_entries(rest, had)));
                }
            },
            None => {
                let mut body: Vec<u8> = Vec::new();
                put(&mut body, value.as_bytes());
                body.push(0);
                assert(body@ =~= encode_utf8(value@) + seq![0u8]);
                subchunk(&mut out, id, body.as_slice());
                proof {
                    lemma_packed_one((id@, body@));
                    lemma_packed_all_add(seq![(id@, body@)], info_entries(later, had));
                    assert(out@ + packed_all(info_entries(later, had)) =~= before + packed_all(
                        info_entries(rest, had),
                    ));
                }
            },
        }
        i = i + 1;
    }
    assert(all.skip(i as int).len() == 0);
    assert(out@ + packed_all(info_entries(all.skip(i as int), stored(unused@))) =~= out@);
    out
}

/// Subchunks that were packed read back as they were.
pub proof fn packed_subchunks_read_back(entries: Seq<(Seq<u8>, Seq<u8>)>)
    requires
        forall|i: int|
            0 <= i < entries.len() ==> (#[trigger] entries[i]).0.len() == 4
                && entries[i].1.len() <= u32::MAX,
    ensures
        subchunks_of(packed_all(entries)) == entries,
    decreases entries.len(),
{
    if entries.len() == 0 {
        assert(subchunks_of(packed_all(entries)) =~= entries);
    } else {
        let e = entries[0];
        let rest = entries.skip(1);
        assert(entries =~= seq![e] + rest);
        lemma_packed_all_add(seq![e], rest);
        lemma_packed_one(e);
        assert forall|i: int| 0 <= i < rest.len() implies (#[trigger] rest[i]).0.len() == 4
            && rest[i].1.len() <= u32::MAX by {
            assert(rest[i] == entries[i + 1]);
        }
        packed_subchunks_read_back(rest);
        let b = packed_all(entries);
        let n = e.1.len() as u32;
        crate::bytes::lemma_le4(n);
        assert(b =~= packed(e) + packed_all(rest));
        assert(b.take(4) =~= e.0);
        assert(b.subrange(4, 8) =~= le4(n));
        assert(u32_le(b, 4) == u32_le(b.subrange(4, 8), 0));
        assert(subchunk_end(b) == 8 + e.1.len());
        assert(b.subrange(8, subchunk_end(b)) =~= e.1);
        assert(after_subchunk(b) =~= packed_all(rest));
    }
}

impl Wav {
    /// Bytes to a frame.
    pub fn frame_bytes(&self) -> (r: usize)
        ensures
            r == self@.kind.width() * self@.channels,
    {
        assert(0 <= self.kind.width() * self.channels <= 8 * 65535) by (nonlinear_arith)
            requires
                self.kind.width() <= 8,
                self.channels <= 65535,
        ;
        self.kind.bytes() * (self.channels as usize)
    }

    /// Whole frames in the sample data, as many as a `usize` counts.
    pub fn frames(&self) -> (r: usize)
        requires
            self@.wf(),
        ensures
            r == least(self@.data.1 - self@.data.0, usize::MAX as int) / (self@.kind.width()
                * self@.channels) as int,
    {
        let bytes: u64 = self.data.end - self.data.start;
        let held: usize = if bytes <= usize::MAX as u64 {
            bytes as usize
        } else {
            usize::MAX
        };
        assert(self.kind.width() * self.channels > 0) by (nonlinear_arith)
            requires
                self.kind.width() > 0,
                self.channels > 0,
        ;
        held / self.frame_bytes()
    }
}

} // verus!
