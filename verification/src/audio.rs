//! Reading samples: where in a file each stretch of them lies, and how the
//! packets of a compressed file come together on one timeline. Nothing holds
//! a whole recording in memory; analysis, meters, the spectrum and playback
//! all read the file as they go.

use crate::bytes::byte_of;
use crate::path::{extension, extension_of, file_name, file_name_of, parent, parent_of};
use crate::text::{decimal, digits_of, string, upper, uppered};
use crate::wav::{least, SampleKind, Wav};
use vstd::prelude::*;

verus! {

/// A timestamp further ahead than this is a damaged one, not a gap.
pub const MAX_GAP_SECONDS: u64 = 10;

/// Frames read at a time by a pass over a file or a range of it.
pub const PIECE: usize = 0x4_0000;

/// PCM reads of more frames than this are split into parts of this many.
pub const PARALLEL_FRAMES: usize = 0x8000;

/// A compressed file is decoded forward over a jump this short, and seeks
/// past a longer one.
pub const FORWARD_SECONDS: u64 = 20;

/// What a file's header says of its audio.
#[derive(Debug, PartialEq)]
pub struct Info {
    pub container: String,
    pub sample_rate: u32,
    pub channels: u16,
    pub bits: Option<u16>,
    pub frames: usize,
    pub bytes: u64,
}

#[verifier::ext_equal]
pub struct InfoView {
    pub container: Seq<char>,
    pub sample_rate: u32,
    pub channels: u16,
    pub bits: Option<u16>,
    pub frames: usize,
    pub bytes: u64,
}

impl View for Info {
    type V = InfoView;

    open spec fn view(&self) -> InfoView {
        InfoView {
            container: self.container@,
            sample_rate: self.sample_rate,
            channels: self.channels,
            bits: self.bits,
            frames: self.frames,
            bytes: self.bytes,
        }
    }
}

impl Clone for Info {
    fn clone(&self) -> (r: Self)
        ensures
            r@ == self@,
    {
        Info {
            container: self.container.clone(),
            sample_rate: self.sample_rate,
            channels: self.channels,
            bits: self.bits,
            frames: self.frames,
            bytes: self.bytes,
        }
    }
}

impl Info {
    /// What a WAV file's header says of its audio; `bytes` is the size of
    /// the file.
    pub fn of_wav(w: &Wav, bytes: u64) -> (r: Info)
        requires
            w@.wf(),
        ensures
            r@ == (InfoView {
                container: w@.container,
                sample_rate: w@.sample_rate,
                channels: w@.channels,
                bits: Some((8 * w@.kind.width()) as u16),
                frames: pcm_frames(
                    w@.data.1 - w@.data.0,
                    (w@.kind.width() * w@.channels) as int,
                ) as usize,
                bytes,
            }),
    {
        Info {
            container: w.container.to_owned(),
            sample_rate: w.sample_rate,
            channels: w.channels,
            bits: Some(w.kind.bits()),
            frames: w.frames(),
            bytes,
        }
    }
}

/// Frames of `frame` bytes in `bytes` bytes of PCM, as many as a `usize`
/// counts.
pub open spec fn pcm_frames(bytes: int, frame: int) -> int {
    least(bytes, usize::MAX as int) / frame
}

/// `n` as a signed number whose values run from `-half` up to `half`.
pub open spec fn signed(n: int, half: int) -> int {
    if n >= half {
        n - 2 * half
    } else {
        n
    }
}

/// The whole number that a sample's bytes stand for, where it is one.
pub open spec fn whole_of(kind: SampleKind, b: Seq<u8>) -> Option<int> {
    match kind {
        SampleKind::U8 => Some(b[0] - 128),
        SampleKind::I16 => Some(signed(b[0] + 0x100 * b[1], 0x8000)),
        SampleKind::I24 => Some(signed(b[0] + 0x100 * b[1] + 0x1_0000 * b[2], 0x80_0000)),
        SampleKind::I32 => Some(
            signed(b[0] + 0x100 * b[1] + 0x1_0000 * b[2] + 0x100_0000 * b[3], 0x8000_0000),
        ),
        SampleKind::F32 | SampleKind::F64 => None,
    }
}

impl SampleKind {
    /// The whole number that a sample's bytes stand for, where it is one.
    pub fn whole(self, b: &[u8]) -> (r: Option<i64>)
        requires
            b@.len() >= self.width(),
        ensures
            match (r, whole_of(self, b@)) {
                (Some(n), Some(m)) => n == m,
                (None, None) => true,
                _ => false,
            },
    {
        match self {
            SampleKind::U8 => Some(b[0] as i64 - 128),
            SampleKind::I16 => {
                let n: i64 = b[0] as i64 + 0x100 * (b[1] as i64);
                Some(
                    if n >= 0x8000 {
                        n - 0x1_0000
                    } else {
                        n
                    },
                )
            },
            SampleKind::I24 => {
                let n: i64 = b[0] as i64 + 0x100 * (b[1] as i64) + 0x1_0000 * (b[2] as i64);
                Some(
                    if n >= 0x80_0000 {
                        n - 0x100_0000
                    } else {
                        n
                    },
                )
            },
            SampleKind::I32 => {
                let n: i64 = b[0] as i64 + 0x100 * (b[1] as i64) + 0x1_0000 * (b[2] as i64)
                    + 0x100_0000 * (b[3] as i64);
                Some(
                    if n >= 0x8000_0000 {
                        n - 0x1_0000_0000
                    } else {
                        n
                    },
                )
            },
            SampleKind::F32 => None,
            SampleKind::F64 => None,
        }
    }

    /// The whole number that stands for full scale.
    pub fn full_scale(self) -> (r: Option<i64>)
        ensures
            r == match self {
                SampleKind::U8 => Some(0x80i64),
                SampleKind::I16 => Some(0x8000i64),
                SampleKind::I24 => Some(0x80_0000i64),
                SampleKind::I32 => Some(0x8000_0000i64),
                SampleKind::F32 | SampleKind::F64 => None,
            },
            // No sample goes below it, and the lowest is there.
            r matches Some(n) ==> {
                &&& forall|b: Seq<u8>| -n <= (#[trigger] whole_of(self, b))->0 && whole_of(self, b)->0 < n
                &&& whole_of(
                    self,
                    Seq::new(
                        self.width(),
                        |i: int|
                            if self != SampleKind::U8 && i == self.width() - 1 {
                                0x80u8
                            } else {
                                0u8
                            },
                    ),
                ) == Some(-n)
            },
    {
        match self {
            SampleKind::U8 => Some(0x80),
            SampleKind::I16 => Some(0x8000),
            SampleKind::I24 => Some(0x80_0000),
            SampleKind::I32 => Some(0x8000_0000),
            SampleKind::F32 => None,
            SampleKind::F64 => None,
        }
    }
}

/// No sample of whole numbers goes past full scale.
pub proof fn samples_stay_within_full_scale(kind: SampleKind, b: Seq<u8>)
    requires
        b.len() >= kind.width(),
    ensures
        kind == SampleKind::U8 ==> -0x80 <= whole_of(kind, b)->0 < 0x80,
        kind == SampleKind::I16 ==> -0x8000 <= whole_of(kind, b)->0 < 0x8000,
        kind == SampleKind::I24 ==> -0x80_0000 <= whole_of(kind, b)->0 < 0x80_0000,
        kind == SampleKind::I32 ==> -0x8000_0000 <= whole_of(kind, b)->0 < 0x8000_0000,
{
}

/// Where samples are read from.
#[derive(Debug, PartialEq)]
pub enum Source {
    /// PCM, read straight from the WAV, from byte `start` up to `end`.
    Pcm { path: String, start: u64, end: u64, kind: SampleKind },
    /// Anything else, decoded as it is read.
    Coded(String),
}

#[verifier::ext_equal]
pub enum SourceView {
    Pcm { path: Seq<char>, start: u64, end: u64, kind: SampleKind },
    Coded(Seq<char>),
}

impl View for Source {
    type V = SourceView;

    open spec fn view(&self) -> SourceView {
        match self {
            Source::Pcm { path, start, end, kind } => SourceView::Pcm {
                path: path@,
                start: *start,
                end: *end,
                kind: *kind,
            },
            Source::Coded(path) => SourceView::Coded(path@),
        }
    }
}

impl Clone for Source {
    fn clone(&self) -> (r: Self)
        ensures
            r@ == self@,
    {
        match self {
            Source::Pcm { path, start, end, kind } => Source::Pcm {
                path: path.clone(),
                start: *start,
                end: *end,
                kind: *kind,
            },
            Source::Coded(path) => Source::Coded(path.clone()),
        }
    }
}

impl Source {
    /// The same source after its file was renamed.
    pub fn with_path(&self, path: &str) -> (r: Source)
        ensures
            r@ == match self@ {
                SourceView::Pcm { path: _, start, end, kind } => SourceView::Pcm {
                    path: path@,
                    start,
                    end,
                    kind,
                },
                SourceView::Coded(_) => SourceView::Coded(path@),
            },
    {
        match self {
            Source::Pcm { start, end, kind, .. } => Source::Pcm {
                path: path.to_owned(),
                start: *start,
                end: *end,
                kind: *kind,
            },
            Source::Coded(_) => Source::Coded(path.to_owned()),
        }
    }

    /// The source of a WAV file's samples.
    pub fn of_wav(path: &str, w: &Wav) -> (r: Source)
        ensures
            r@ == (SourceView::Pcm {
                path: path@,
                start: w@.data.0,
                end: w@.data.1,
                kind: w@.kind,
            }),
    {
        Source::Pcm {
            path: path.to_owned(),
            start: w.data.start,
            end: w.data.end,
            kind: w.kind,
        }
    }
}

/// What a compressed file's container is called: its extension in capitals.
pub open spec fn container_of(path: Seq<char>) -> Seq<char> {
    match extension_of(path) {
        Some(e) => uppered(e),
        None => "audio"@,
    }
}

/// What a compressed file's container is called.
pub fn container(path: &str) -> (r: String)
    ensures
        r@ == container_of(path@),
{
    match extension(path) {
        Some(e) => {
            let e = string(e.as_slice());
            upper(e.as_str())
        },
        None => "audio".to_owned(),
    }
}

/// The bits of a sample as rows show them.
pub open spec fn bits_text(bits: Option<u16>) -> Seq<char> {
    match bits {
        Some(b) => ", "@ + digits_of(b as nat) + "-bit"@,
        None => Seq::empty(),
    }
}

/// What is shown of a file: its size and length are given as text.
pub open spec fn file_rows_of(
    path: Seq<char>,
    info: InfoView,
    size: Seq<char>,
    seconds: Seq<char>,
    windows: bool,
) -> Seq<(Seq<char>, Seq<char>)> {
    let folder = match parent_of(path, windows) {
        Some(p) => p,
        None => Seq::empty(),
    };
    seq![
        ("Name"@, file_name_of(path)),
        ("Folder"@, folder),
        ("Size"@, size + " MB"@),
        ("Format"@, info.container + bits_text(info.bits)),
        ("Sample rate"@, digits_of(info.sample_rate as nat) + " Hz"@),
        ("Channels"@, digits_of(info.channels as nat)),
        ("Length"@, seconds + " s, "@ + digits_of(info.frames as nat) + " frames"@),
    ]
}

/// Rows by their views.
pub open spec fn row_texts(s: Seq<(String, String)>) -> Seq<(Seq<char>, Seq<char>)> {
    s.map_values(|p: (String, String)| (p.0@, p.1@))
}

fn number(n: u64) -> (r: String)
    ensures
        r@ == digits_of(n as nat),
{
    let d = decimal(n);
    string(d.as_slice())
}

/// What is shown of a file: `size` in megabytes and `seconds` are given as
/// text.
pub fn file_rows(path: &str, info: &Info, size: &str, seconds: &str, windows: bool) -> (r: Vec<
    (String, String),
>)
    ensures
        row_texts(r@) == file_rows_of(path@, info@, size@, seconds@, windows),
{
    let folder = match parent(path, windows) {
        Some(p) => p,
        None => String::new(),
    };
    let mut megabytes = size.to_owned();
    megabytes.append(" MB");
    let mut format = info.container.clone();
    match info.bits {
        Some(b) => {
            let b = number(b as u64);
            format.append(", ");
            format.append(b.as_str());
            format.append("-bit");
        },
        None => {},
    }
    let ghost f0 = info.container@;
    assert(format@ =~= f0 + bits_text(info.bits));
    let mut rate = number(info.sample_rate as u64);
    rate.append(" Hz");
    let channels = number(info.channels as u64);
    let frames = number(info.frames as u64);
    let mut length = seconds.to_owned();
    length.append(" s, ");
    length.append(frames.as_str());
    length.append(" frames");
    let mut rows: Vec<(String, String)> = Vec::new();
    rows.push(("Name".to_owned(), file_name(path)));
    rows.push(("Folder".to_owned(), folder));
    rows.push(("Size".to_owned(), megabytes));
    rows.push(("Format".to_owned(), format));
    rows.push(("Sample rate".to_owned(), rate));
    rows.push(("Channels".to_owned(), channels));
    rows.push(("Length".to_owned(), length));
    assert(parent_of(path@, windows) is None ==> folder@ =~= Seq::<char>::empty());
    assert(row_texts(rows@) =~~= file_rows_of(path@, info@, size@, seconds@, windows));
    rows
}

/// A stretch of a PCM file to read: `frames` frames from byte `from` on, to
/// stand at frame `at` of what was asked for.
#[derive(Debug, Clone, Copy, PartialEq, Eq, Structural)]
pub struct Part {
    pub from: u64,
    pub at: usize,
    pub frames: usize,
}

/// What a read of PCM comes to: how many frames the file has there, and the
/// parts to read them in.
pub struct PcmRead {
    pub available: usize,
    pub parts: Vec<Part>,
}

/// How many of `wanted` frames from `first` on a file of `frames` has.
pub open spec fn available_of(frames: int, first: int, wanted: int) -> int {
    if first >= frames {
        0
    } else {
        least(frames - first, wanted)
    }
}

/// The parts from frame `done` on, of `available` frames that start at byte
/// `from`: one after the other, each as long as it may be.
pub open spec fn parts_from(from: int, frame: int, available: int, done: int) -> Seq<Part>
    decreases available - done,
{
    if done >= available {
        Seq::empty()
    } else {
        let n = least(available - done, PARALLEL_FRAMES as int);
        seq![
            Part {
                from: (from + done * frame) as u64,
                at: done as usize,
                frames: n as usize,
            },
        ] + parts_from(from, frame, available, done + n)
    }
}

/// Which parts of a PCM file hold the `wanted` frames from `first` on, where
/// its samples run from byte `start` up to `end` in frames of `frame` bytes.
pub fn pcm_read(start: u64, end: u64, frame: usize, first: usize, wanted: usize) -> (r: PcmRead)
    requires
        start <= end,
        frame > 0,
    ensures
        r.available == available_of(
            pcm_frames(end - start, frame as int),
            first as int,
            wanted as int,
        ),
        r.parts@ == parts_from(
            start + first * frame,
            frame as int,
            r.available as int,
            0,
        ),
        r.available > 0 ==> start + (first + r.available) * frame <= end,
{
    let len: u64 = end - start;
    let bytes: usize = if len > usize::MAX as u64 {
        usize::MAX
    } else {
        len as usize
    };
    let frames: usize = bytes / frame;
    let available: usize = if first >= frames {
        0
    } else if frames - first < wanted {
        frames - first
    } else {
        wanted
    };
    let mut parts: Vec<Part> = Vec::new();
    if available == 0 {
        assert(parts@ =~= parts_from(start + first * frame, frame as int, 0, 0));
        return PcmRead { available, parts };
    }
    proof {
        assert((first + available) * frame <= bytes) by (nonlinear_arith)
            requires
                first + available <= frames,
                frames == bytes / frame,
                frame > 0,
        ;
        assert(first * frame <= (first + available) * frame) by (nonlinear_arith)
            requires
                frame > 0,
                available >= 0,
        ;
    }
    let from: u64 = start + (first * frame) as u64;
    let ghost all = parts_from(from as int, frame as int, available as int, 0);
    let mut done: usize = 0;
    assert(parts@ + all =~= all);
    while done < available
        invariant
            done <= available,
            frame > 0,
            from == start + first * frame,
            start + (first + available) * frame <= end,
            (first + available) * frame <= usize::MAX,
            all == parts@ + parts_from(from as int, frame as int, available as int, done as int),
        decreases available - done,
    {
        let left: usize = available - done;
        let n: usize = if left < PARALLEL_FRAMES {
            left
        } else {
            PARALLEL_FRAMES
        };
        proof {
            assert(first * frame + done * frame <= (first + available) * frame)
                by (nonlinear_arith)
                requires
                    done <= available,
                    frame > 0,
            ;
            assert(done * frame >= 0) by (nonlinear_arith)
                requires
                    frame > 0,
            ;
            assert(done * frame <= usize::MAX) by (nonlinear_arith)
                requires
                    done < available,
                    first * frame + done * frame <= (first + available) * frame,
                    (first + available) * frame <= usize::MAX,
                    first * frame >= 0,
            ;
        }
        let part = Part { from: from + (done * frame) as u64, at: done, frames: n };
        let ghost before = parts@;
        let ghost rest = parts_from(from as int, frame as int, available as int, done + n);
        parts.push(part);
        assert(before + (seq![part] + rest) =~= parts@ + rest);
        done = done + n;
    }
    assert(parts@ + parts_from(from as int, frame as int, available as int, done as int)
        =~= parts@);
    PcmRead { available, parts }
}

/// A track's ticks: which one frame 0 is at, and how many frames `ticks` of
/// them are.
#[derive(Debug, Clone, Copy, PartialEq, Eq, Structural)]
pub struct Timeline {
    pub start: i64,
    /// Frames to each `ticks` ticks.
    pub per: u64,
    pub ticks: u32,
}

impl Timeline {
    pub open spec fn wf(self) -> bool {
        self.per > 0 && self.ticks > 0
    }

    /// The frame at a tick; before the start it is the first.
    pub open spec fn frame_at(self, ts: i64) -> nat {
        if ts <= self.start {
            0
        } else {
            let n = ((ts - self.start) as nat * self.per as nat) / self.ticks as nat;
            if n > usize::MAX {
                0
            } else {
                n
            }
        }
    }

    /// The last tick at or before a frame.
    pub open spec fn tick_at(self, frame: usize) -> int {
        let t = (frame as nat * self.ticks as nat) / self.per as nat + self.start;
        if t > i64::MAX {
            i64::MAX as int
        } else {
            t
        }
    }

    /// Ticks of `numer` / `denom` seconds each, at `sample_rate` frames a
    /// second.
    pub fn new(start: i64, numer: u32, denom: u32, sample_rate: u32) -> (r: Timeline)
        ensures
            r == (Timeline { start, per: (numer * sample_rate) as u64, ticks: denom }),
            numer > 0 && denom > 0 && sample_rate > 0 ==> r.wf(),
    {
        assert(numer * sample_rate <= 0xFFFF_FFFF * 0xFFFF_FFFF) by (nonlinear_arith)
            requires
                0 <= numer <= 0xFFFF_FFFF,
                0 <= sample_rate <= 0xFFFF_FFFF,
        ;
        assert(numer > 0 && sample_rate > 0 ==> numer * sample_rate > 0) by (nonlinear_arith);
        assert(numer * sample_rate >= 0) by (nonlinear_arith);
        Timeline { start, per: (numer as u64) * (sample_rate as u64), ticks: denom }
    }

    pub fn frame_of(&self, ts: i64) -> (r: usize)
        requires
            self.wf(),
        ensures
            r == self.frame_at(ts),
    {
        if ts <= self.start {
            return 0;
        }
        let elapsed: i128 = (ts as i128) - (self.start as i128);
        let e: u128 = elapsed as u128;
        proof {
            assert(e * self.per <= 0xFFFF_FFFF_FFFF_FFFF * 0xFFFF_FFFF_FFFF_FFFF)
                by (nonlinear_arith)
                requires
                    0 <= e <= 0xFFFF_FFFF_FFFF_FFFF,
                    0 <= self.per <= 0xFFFF_FFFF_FFFF_FFFF,
            ;
            assert(e * self.per >= 0) by (nonlinear_arith)
                requires
                    e >= 0,
                    self.per >= 0,
            ;
        }
        let n: u128 = e * (self.per as u128) / (self.ticks as u128);
        if n > usize::MAX as u128 {
            0
        } else {
            n as usize
        }
    }

    pub fn timestamp_of(&self, frame: usize) -> (r: i64)
        requires
            self.wf(),
        ensures
            r == self.tick_at(frame),
    {
        let f: u128 = frame as u128;
        proof {
            assert(f * self.ticks <= 0xFFFF_FFFF_FFFF_FFFF * 0xFFFF_FFFF) by (nonlinear_arith)
                requires
                    0 <= f <= 0xFFFF_FFFF_FFFF_FFFF,
                    0 <= self.ticks <= 0xFFFF_FFFF,
            ;
            assert(f * self.ticks >= 0) by (nonlinear_arith)
                requires
                    f >= 0,
                    self.ticks >= 0,
            ;
            assert((f * self.ticks) / self.per as int <= f * self.ticks) by (nonlinear_arith)
                requires
                    self.per > 0,
                    f * self.ticks >= 0,
            ;
            assert((f * self.ticks) / self.per as int >= 0) by (nonlinear_arith)
                requires
                    self.per > 0,
                    f * self.ticks >= 0,
            ;
        }
        let e: u128 = f * (self.ticks as u128) / (self.per as u128);
        let t: i128 = (e as i128) + (self.start as i128);
        if t > i64::MAX as i128 {
            i64::MAX
        } else {
            t as i64
        }
    }
}

/// The tick that a seek to a frame goes to is never after that frame.
pub proof fn a_seek_never_lands_late(t: Timeline, frame: usize)
    requires
        t.wf(),
    ensures
        t.frame_at(t.tick_at(frame) as i64) <= frame,
{
    let (p, k, f) = (t.per as int, t.ticks as int, frame as int);
    let e = (f * k) / p;
    assert(e * p <= f * k && e >= 0) by (nonlinear_arith)
        requires
            e == (f * k) / p,
            p > 0,
            k > 0,
            f >= 0,
    ;
    let ts = t.tick_at(frame);
    if ts > t.start {
        let d = ts - t.start;
        assert(d <= e);
        assert(d * p <= e * p) by (nonlinear_arith)
            requires
                d <= e,
                p > 0,
        ;
        assert((d * p) / k <= f) by (nonlinear_arith)
            requires
                d * p <= f * k,
                k > 0,
                f >= 0,
        ;
    }
}

/// Where a packet's audio goes on the timeline.
#[derive(Debug, Clone, Copy, PartialEq, Eq, Structural)]
pub struct Placed {
    /// Frame at which the block starts.
    pub start: usize,
    /// Silent frames before the packet's own.
    pub gap: usize,
    /// Frames of the packet that have been played already.
    pub skip: usize,
    /// Where the next block starts.
    pub next: usize,
}

/// Where a packet of `frames` frames with its timestamp at frame `at` goes,
/// after audio up to `next`. A damaged packet that failed to decode leaves a
/// silent gap instead of pulling everything after it earlier, and
/// overlapping audio is dropped.
pub open spec fn placed_of(next: Option<usize>, at: usize, frames: usize, most: int) -> Placed {
    let start = match next {
        Some(n) => n as int,
        None => at as int,
    };
    let gap = if at >= start && at - start <= most {
        at - start
    } else {
        0
    };
    let skip = if at >= start {
        0
    } else {
        least(start - at, frames as int)
    };
    Placed {
        start: start as usize,
        gap: gap as usize,
        skip: skip as usize,
        next: (start + gap + frames - skip) as usize,
    }
}

/// Where a packet's audio goes.
pub fn place(next: Option<usize>, at: usize, frames: usize, sample_rate: u32) -> (r: Placed)
    requires
        frames + at <= usize::MAX,
        next matches Some(n) ==> n + frames <= usize::MAX,
    ensures
        r == placed_of(next, at, frames, MAX_GAP_SECONDS * sample_rate),
{
    let most: u64 = MAX_GAP_SECONDS * (sample_rate as u64);
    let start: usize = match next {
        Some(n) => n,
        None => at,
    };
    let mut gap: usize = 0;
    let mut skip: usize = 0;
    if at >= start {
        if (at - start) as u64 <= most {
            gap = at - start;
        }
    } else if start - at < frames {
        skip = start - at;
    } else {
        skip = frames;
    }
    Placed { start, gap, skip, next: start + gap + (frames - skip) }
}

/// Each block starts where the one before it ended, and a packet that is not
/// damaged ends where its timestamp says.
pub proof fn packets_come_together_on_the_timeline(
    next: usize,
    at: usize,
    frames: usize,
    most: int,
)
    requires
        frames + at <= usize::MAX,
        next + frames <= usize::MAX,
        0 <= most,
    ensures
        placed_of(Some(next), at, frames, most).start == next,
        placed_of(Some(next), at, frames, most).next >= next,
        at <= next + most && at + frames >= next ==> placed_of(Some(next), at, frames, most).next
            == at + frames,
{
}

/// Decoded frames of a compressed file that have not been read yet. Samples
/// are interleaved.
pub struct Queue<T> {
    pub channels: usize,
    pub items: Vec<T>,
    /// The file's frame at the front of the queue.
    pub from: usize,
    pub ended: bool,
    /// How far ahead of the queue is still decoded up to.
    pub forward: u64,
}

/// What a read of a compressed file needs next.
#[derive(Debug, Clone, Copy, PartialEq, Eq, Structural)]
pub enum Need {
    /// Seek to the frame asked for.
    Seek,
    /// Decode another packet.
    Decode,
    /// This many frames can be taken.
    Ready(usize),
}

impl<T> Queue<T> {
    pub open spec fn wf(self) -> bool {
        &&& self.channels > 0
        &&& self.items@.len() % self.channels as nat == 0
        &&& self.from + self.queued() <= usize::MAX
    }

    /// Frames in the queue.
    pub open spec fn queued(self) -> nat {
        self.items@.len() / self.channels as nat
    }

    /// What a read of `wanted` frames from `first` on needs next: a seek for
    /// a jump back or far ahead, and else packets until it is all there or
    /// the file ends.
    pub open spec fn need_of(self, first: usize, wanted: usize) -> Need {
        if first < self.from || first > self.from + self.queued() + self.forward {
            Need::Seek
        } else if first > self.from + self.queued() {
            if self.ended {
                Need::Ready(0)
            } else {
                Need::Decode
            }
        } else {
            let there = self.from + self.queued() - first;
            if there >= wanted || self.ended {
                Need::Ready(least(there, wanted as int) as usize)
            } else {
                Need::Decode
            }
        }
    }
}

impl<T: Copy> Queue<T> {
    pub fn new(channels: usize, sample_rate: u32) -> (r: Queue<T>)
        requires
            channels > 0,
        ensures
            r.wf(),
            r.items@.len() == 0,
            r.from == 0,
            !r.ended,
            r.channels == channels,
            r.forward == FORWARD_SECONDS * sample_rate,
    {
        let forward: u64 = FORWARD_SECONDS * (sample_rate as u64);
        proof {
            assert(0int / (channels as int) == 0 && 0int % (channels as int) == 0)
                by (nonlinear_arith)
                requires
                    channels > 0,
            ;
        }
        Queue { channels, items: Vec::new(), from: 0, ended: false, forward }
    }

    /// What a read of `wanted` frames from `first` on needs next.
    pub fn need(&self, first: usize, wanted: usize) -> (r: Need)
        requires
            self.wf(),
        ensures
            r == self.need_of(first, wanted),
    {
        let queued: usize = self.items.len() / self.channels;
        let end: usize = self.from + queued;
        if first < self.from || first as u128 > end as u128 + self.forward as u128 {
            return Need::Seek;
        }
        if first > end {
            return if self.ended {
                Need::Ready(0)
            } else {
                Need::Decode
            };
        }
        let there: usize = end - first;
        if there >= wanted || self.ended {
            Need::Ready(
                if there < wanted {
                    there
                } else {
                    wanted
                },
            )
        } else {
            Need::Decode
        }
    }

    /// The file has been sought to `first`.
    pub fn sought(&mut self, first: usize)
        requires
            old(self).wf(),
        ensures
            final(self).wf(),
            final(self).items@.len() == 0,
            final(self).from == first,
            !final(self).ended,
            final(self).channels == old(self).channels,
            final(self).forward == old(self).forward,
    {
        self.items = Vec::new();
        self.from = first;
        self.ended = false;
        proof {
            let c = self.channels as int;
            assert(0int / c == 0 && 0int % c == 0) by (nonlinear_arith)
                requires
                    c > 0,
            ;
        }
    }

    /// There are no more packets.
    pub fn end(&mut self)
        ensures
            *final(self) == (Queue { ended: true, ..*old(self) }),
    {
        self.ended = true;
    }
}

/// Frame `f` of samples in `from` channels, for `to` channels: where it has
/// fewer, the last is repeated.
pub open spec fn spread<T>(samples: Seq<T>, from: int, to: int, f: int) -> Seq<T> {
    Seq::new(to as nat, |c: int| samples[f * from + least(c, from - 1)])
}

/// The frames from `first` up to `end`, for `to` channels.
pub open spec fn spread_all<T>(samples: Seq<T>, from: int, to: int, first: int, end: int) -> Seq<T>
    decreases end - first,
{
    if end <= first {
        Seq::empty()
    } else {
        spread_all(samples, from, to, first, end - 1) + spread(samples, from, to, end - 1)
    }
}

/// How many silent frames go before a packet that starts at `at`, where the
/// queue ends at `end`.
pub open spec fn silence_of(end: int, at: int, most: int) -> int {
    if at <= end {
        0
    } else {
        least(at - end, most)
    }
}

/// How many frames of a packet that starts at `at` are there already. After
/// a seek the first packet usually starts before the frame asked for.
pub open spec fn skipped_of(end: int, at: int, frames: int) -> int {
    if at >= end {
        0
    } else {
        least(end - at, frames)
    }
}

proof fn lemma_frames(len: int, frames: int, channels: int)
    requires
        channels > 0,
        len == frames * channels,
        frames >= 0,
    ensures
        len / channels == frames,
        len % channels == 0,
{
    assert(len / channels == frames && len % channels == 0) by (nonlinear_arith)
        requires
            channels > 0,
            len == frames * channels,
            frames >= 0,
    ;
}

proof fn lemma_whole(len: int, channels: int)
    requires
        channels > 0,
        len >= 0,
    ensures
        len == (len / channels) * channels + len % channels,
        0 <= len % channels < channels,
        0 <= len / channels <= len,
{
    assert(len == (len / channels) * channels + len % channels && 0 <= len % channels < channels
        && 0 <= len / channels <= len) by (nonlinear_arith)
        requires
            channels > 0,
            len >= 0,
    ;
}

impl<T: Copy> Queue<T> {
    /// Queues a packet whose samples, in `from` channels, start at frame
    /// `at` of the file.
    pub fn push(&mut self, at: usize, from: usize, samples: &[T], sample_rate: u32, silence: T)
        requires
            old(self).wf(),
            from > 0,
            old(self).from + old(self).queued() + MAX_GAP_SECONDS * sample_rate + samples@.len()
                <= usize::MAX,
        ensures
            final(self).wf(),
            ({
                let end = old(self).from + old(self).queued();
                let frames = samples@.len() as int / from as int;
                let quiet = silence_of(end, at as int, MAX_GAP_SECONDS * sample_rate);
                let skip = skipped_of(end, at as int, frames);
                &&& final(self).items@ == old(self).items@ + Seq::new(
                    (quiet * old(self).channels) as nat,
                    |i: int| silence,
                ) + spread_all(samples@, from as int, old(self).channels as int, skip, frames)
                &&& final(self).queued() == old(self).queued() + quiet + (frames - skip)
            }),
            final(self).from == old(self).from,
            final(self).ended == old(self).ended,
            final(self).channels == old(self).channels,
            final(self).forward == old(self).forward,
    {
        let ghost before = self.items@;
        let ghost q = self.queued() as int;
        let ch: usize = self.channels;
        let queued: usize = self.items.len() / ch;
        let end: usize = self.from + queued;
        let most: u64 = MAX_GAP_SECONDS * (sample_rate as u64);
        let len: usize = samples.len();
        let frames: usize = len / from;
        proof {
            lemma_whole(before.len() as int, ch as int);
            lemma_whole(len as int, from as int);
        }
        let quiet: usize = if at <= end {
            0
        } else if ((at - end) as u64) < most {
            at - end
        } else {
            most as usize
        };
        let skip: usize = if at >= end {
            0
        } else if end - at < frames {
            end - at
        } else {
            frames
        };
        let ghost none = Seq::<T>::empty();
        let mut k: usize = 0;
        assert(before + Seq::new(0, |i: int| silence) =~= before);
        assert(0 * ch == 0);
        while k < quiet
            invariant
                k <= quiet,
                ch == self.channels,
                self.from == old(self).from,
                self.ended == old(self).ended,
                self.channels == old(self).channels,
                self.forward == old(self).forward,
                self.items@ == before + Seq::new((k * ch) as nat, |i: int| silence),
            decreases quiet - k,
        {
            let ghost row = self.items@;
            let mut c: usize = 0;
            assert(row + Seq::new(0, |i: int| silence) =~= row);
            while c < ch
                invariant
                    c <= ch,
                    ch == self.channels,
                    self.from == old(self).from,
                    self.ended == old(self).ended,
                    self.channels == old(self).channels,
                    self.forward == old(self).forward,
                    self.items@ == row + Seq::new(c as nat, |i: int| silence),
                decreases ch - c,
            {
                self.items.push(silence);
                c = c + 1;
                assert(self.items@ =~= row + Seq::new(c as nat, |i: int| silence));
            }
            proof {
                assert((k + 1) * ch == k * ch + ch) by (nonlinear_arith);
                assert(k * ch >= 0) by (nonlinear_arith)
                    requires
                        k >= 0,
                        ch >= 0,
                ;
                assert(self.items@ =~= before + Seq::new(((k + 1) * ch) as nat, |i: int| silence));
            }
            k = k + 1;
        }
        let ghost padded = self.items@;
        let mut f: usize = skip;
        assert(padded + spread_all(samples@, from as int, ch as int, skip as int, skip as int)
            =~= padded);
        while f < frames
            invariant
                skip <= f <= frames,
                from > 0,
                len == samples@.len(),
                len == frames * from + len % from,
                0 <= len % from,
                ch == self.channels,
                self.from == old(self).from,
                self.ended == old(self).ended,
                self.channels == old(self).channels,
                self.forward == old(self).forward,
                self.items@ == padded + spread_all(
                    samples@,
                    from as int,
                    ch as int,
                    skip as int,
                    f as int,
                ),
                padded.len() + (f - skip) * ch == self.items@.len(),
            decreases frames - f,
        {
            let ghost row = self.items@;
            let ghost own = spread(samples@, from as int, ch as int, f as int);
            proof {
                assert(f * from + from <= len) by (nonlinear_arith)
                    requires
                        f < frames,
                        len == frames * from + len % from,
                        0 <= len % from,
                        from > 0,
                ;
                assert(f * from >= 0) by (nonlinear_arith)
                    requires
                        f >= 0,
                        from > 0,
                ;
            }
            let base: usize = f * from;
            let mut c: usize = 0;
            assert(row + own.take(0) =~= row);
            while c < ch
                invariant
                    c <= ch,
                    base == f * from,
                    len == samples@.len(),
                    base + from <= len,
                    from > 0,
                    own == spread(samples@, from as int, ch as int, f as int),
                    ch == self.channels,
                    self.from == old(self).from,
                    self.ended == old(self).ended,
                    self.channels == old(self).channels,
                    self.forward == old(self).forward,
                    self.items@ == row + own.take(c as int),
                decreases ch - c,
            {
                let at_channel: usize = if c < from - 1 {
                    c
                } else {
                    from - 1
                };
                self.items.push(samples[base + at_channel]);
                c = c + 1;
                assert(self.items@ =~= row + own.take(c as int));
            }
            proof {
                assert(own.take(ch as int) =~= own);
                let done = spread_all(samples@, from as int, ch as int, skip as int, f as int);
                assert(padded + done + own =~= padded + (done + own));
                assert((f + 1 - skip) * ch == (f - skip) * ch + ch) by (nonlinear_arith);
            }
            f = f + 1;
        }
        proof {
            let total = q + quiet + (frames - skip);
            assert(self.items@.len() == total * ch) by (nonlinear_arith)
                requires
                    self.items@.len() == q * ch + quiet * ch + (frames - skip) * ch,
                    total == q + quiet + (frames - skip),
            ;
            lemma_frames(self.items@.len() as int, total, ch as int);
        }
    }

    /// Takes the `n` frames from `first` on, and forgets those before them.
    pub fn take(&mut self, first: usize, n: usize) -> (r: Vec<T>)
        requires
            old(self).wf(),
            old(self).from <= first,
            n > 0 ==> first + n <= old(self).from + old(self).queued(),
        ensures
            final(self).wf(),
            ({
                let ch = old(self).channels;
                let skip = least(first - old(self).from, old(self).queued() as int);
                &&& r@ == old(self).items@.subrange(skip * ch, (skip + n) * ch)
                &&& final(self).items@ == old(self).items@.skip((skip + n) * ch)
                &&& final(self).from == old(self).from + skip + n
                &&& final(self).queued() == old(self).queued() - skip - n
            }),
            final(self).ended == old(self).ended,
            final(self).channels == old(self).channels,
            final(self).forward == old(self).forward,
    {
        let ch: usize = self.channels;
        let len: usize = self.items.len();
        let queued: usize = len / ch;
        let ahead: usize = first - self.from;
        let skip: usize = if ahead < queued {
            ahead
        } else {
            queued
        };
        proof {
            lemma_whole(len as int, ch as int);
            assert(0 <= skip * ch <= (skip + n) * ch <= queued * ch) by (nonlinear_arith)
                requires
                    0 <= skip,
                    0 <= n,
                    skip + n <= queued,
                    ch > 0,
            ;
        }
        let a: usize = skip * ch;
        let b: usize = (skip + n) * ch;
        let mut out: Vec<T> = Vec::new();
        let mut rest: Vec<T> = Vec::new();
        let mut i: usize = a;
        while i < b
            invariant
                a <= i <= b <= len,
                len == self.items@.len(),
                out@ == self.items@.subrange(a as int, i as int),
            decreases b - i,
        {
            out.push(self.items[i]);
            i = i + 1;
            assert(out@ =~= self.items@.subrange(a as int, i as int));
        }
        while i < len
            invariant
                b <= i <= len,
                len == self.items@.len(),
                rest@ == self.items@.subrange(b as int, i as int),
            decreases len - i,
        {
            rest.push(self.items[i]);
            i = i + 1;
            assert(rest@ =~= self.items@.subrange(b as int, i as int));
        }
        assert(rest@ =~= self.items@.skip(b as int));
        proof {
            let left = queued - skip - n;
            assert(len - b == left * ch) by (nonlinear_arith)
                requires
                    len == queued * ch,
                    b == (skip + n) * ch,
                    left == queued - skip - n,
            ;
            lemma_frames(len - b, left, ch as int);
        }
        self.items = rest;
        self.from = self.from + skip + n;
        out
    }
}

/// A pass over a whole file: how far it is, and how long the header says the
/// file is.
#[derive(Debug, Clone, Copy, PartialEq, Eq, Structural)]
pub struct Pass {
    pub at: usize,
    pub planned: usize,
    /// Frames to each read.
    pub piece: usize,
}

/// What a pass came to.
#[derive(Debug, Clone, Copy, PartialEq, Eq, Structural)]
pub enum Length {
    /// The file holds no audio.
    Nothing,
    /// As long as the header says, so what was worked out on the way holds.
    AsPlanned,
    /// Of another length, so a second pass has to work it out again.
    Other,
}

/// Whole blocks of `block` frames to each read, so none straddles two.
pub open spec fn piece_of(block: usize) -> int {
    if PIECE / block == 0 {
        block as int
    } else {
        (PIECE / block) * block
    }
}

impl Pass {
    pub fn new(planned: usize, block: usize) -> (r: Pass)
        requires
            block > 0,
        ensures
            r.at == 0,
            r.planned == planned,
            r.piece == piece_of(block),
            r.piece > 0,
            r.piece as int % block as int == 0,
    {
        let n: usize = PIECE / block;
        proof {
            assert(n * block <= PIECE && (n > 0 ==> n * block > 0) && (n * block) % (block as int)
                == 0) by (nonlinear_arith)
                requires
                    n == PIECE / block,
                    block > 0,
            ;
            assert(block as int % block as int == 0) by (nonlinear_arith)
                requires
                    block > 0,
            ;
        }
        let piece: usize = if n == 0 {
            block
        } else {
            n * block
        };
        Pass { at: 0, planned, piece }
    }

    /// Of `got` frames just read, how many an analysis that wants frames up
    /// to `end` takes.
    pub fn wanted(&self, got: usize, end: usize) -> (r: usize)
        ensures
            r == if self.at < end {
                least(end - self.at, got as int)
            } else {
                0
            },
            // None that was not got, none past the end, and all others.
            r <= got,
            r > 0 ==> self.at + r <= end,
            r < got ==> self.at + r >= end,
    {
        if self.at < end {
            if end - self.at < got {
                end - self.at
            } else {
                got
            }
        } else {
            0
        }
    }

    /// Goes on after a read that got `got` frames; says whether there may be
    /// more.
    pub fn took(&mut self, got: usize) -> (r: bool)
        requires
            old(self).at + got <= usize::MAX,
        ensures
            *final(self) == (Pass { at: (old(self).at + got) as usize, ..*old(self) }),
            r == (got >= old(self).piece),
    {
        self.at = self.at + got;
        got >= self.piece
    }

    /// What the pass came to. Compressed headers can be missing or wrong
    /// about the length.
    pub fn length(&self) -> (r: Length)
        ensures
            r == if self.at == 0 {
                Length::Nothing
            } else if self.planned == self.at {
                Length::AsPlanned
            } else {
                Length::Other
            },
    {
        if self.at == 0 {
            Length::Nothing
        } else if self.planned == self.at {
            Length::AsPlanned
        } else {
            Length::Other
        }
    }
}

/// Every whole number that a sample can stand for reads back from its bytes,
/// the lowest first; samples of one byte are counted from the middle.
pub proof fn samples_read_as_their_numbers(n: int)
    ensures
        -0x80 <= n < 0x80 ==> whole_of(SampleKind::U8, seq![byte_of(n + 0x80, 0)]) == Some(n),
        -0x8000 <= n < 0x8000 ==> whole_of(
            SampleKind::I16,
            Seq::new(2, |i: int| byte_of(n, i as nat)),
        ) == Some(n),
        -0x80_0000 <= n < 0x80_0000 ==> whole_of(
            SampleKind::I24,
            Seq::new(3, |i: int| byte_of(n, i as nat)),
        ) == Some(n),
        -0x8000_0000 <= n < 0x8000_0000 ==> whole_of(
            SampleKind::I32,
            Seq::new(4, |i: int| byte_of(n, i as nat)),
        ) == Some(n),
{
    reveal_with_fuel(byte_of, 5);
    let a = n / 256;
    let b = a / 256;
    let c = b / 256;
    let d = c / 256;
    assert(n == 256 * a + n % 256);
    assert(a == 256 * b + a % 256);
    assert(b == 256 * c + b % 256);
    assert(c == 256 * d + c % 256);
    assert(byte_of(n, 0) == n % 256);
    assert(byte_of(n, 1) == a % 256);
    assert(byte_of(n, 2) == b % 256);
    assert(byte_of(n, 3) == c % 256);
}

} // verus!
