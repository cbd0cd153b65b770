//! The shape of a spectrogram: which signals are analysed, how many columns
//! and windows there are, which frames each needs, and which of those read
//! so far can be let go, so memory stays flat whatever the length.

use crate::wav::least;
use vstd::prelude::*;

verus! {

pub const FFT_SIZES: [usize; 5] = [512, 1024, 2048, 4096, 8192];

/// Columns in one analysis: wider than any screen, so the texture is only
/// ever scaled down.
pub const MAX_COLUMNS: usize = 2048;

/// Overlapping windows that a single spectrum is averaged over.
pub const PROBE_WINDOWS: usize = 8;

/// The longest stretch of frames whose extremes are found in one go.
pub const STRETCH: usize = 0x1_0000;

/// Which signals are analysed: the channels averaged, each channel on its
/// own, or one channel.
#[derive(Debug, Clone, Copy, PartialEq, Eq, Structural)]
pub enum Channels {
    Mix,
    All,
    One(usize),
}

/// A signal that is analysed.
#[derive(Debug, Clone, Copy, PartialEq, Eq, Structural)]
pub enum Target {
    Mix,
    Channel(usize),
}

impl Channels {
    /// What this means for a file with `count` channels: All on a mono file,
    /// or a channel the file does not have, falls back to the mix.
    pub open spec fn targets_of(self, count: usize) -> Seq<Target> {
        match self {
            Channels::All => if count > 1 {
                Seq::new(count as nat, |c: int| Target::Channel(c as usize))
            } else {
                seq![Target::Mix]
            },
            Channels::One(c) => if c < count {
                seq![Target::Channel(c)]
            } else {
                seq![Target::Mix]
            },
            Channels::Mix => seq![Target::Mix],
        }
    }

    /// What this means for a file with `count` channels.
    pub fn targets(self, count: usize) -> (r: Vec<Target>)
        ensures
            r@ == self.targets_of(count),
    {
        let mut out: Vec<Target> = Vec::new();
        match self {
            Channels::All if count > 1 => {
                let mut c: usize = 0;
                while c < count
                    invariant
                        c <= count,
                        out@ == Seq::new(c as nat, |i: int| Target::Channel(i as usize)),
                    decreases count - c,
                {
                    out.push(Target::Channel(c));
                    c = c + 1;
                    assert(out@ =~= Seq::new(c as nat, |i: int| Target::Channel(i as usize)));
                }
                assert(out@ =~= self.targets_of(count));
            },
            Channels::One(c) if c < count => {
                out.push(Target::Channel(c));
                assert(out@ =~= self.targets_of(count));
            },
            _ => {
                out.push(Target::Mix);
                assert(out@ =~= self.targets_of(count));
            },
        }
        out
    }
}

/// Whatever is asked for, there is something to analyse, and every channel
/// asked for is one the file has.
pub proof fn targets_are_in_the_file(channels: Channels, count: usize)
    ensures
        channels.targets_of(count).len() > 0,
        forall|i: int|
            0 <= i < channels.targets_of(count).len() ==> (
            #[trigger] channels.targets_of(count)[i] matches Target::Channel(c) ==> c < count),
{
}

#[derive(Debug, Clone, Copy, PartialEq, Eq, Structural)]
pub struct Spec {
    pub fft: usize,
    pub channels: Channels,
}

/// Frames of a file, from `start` up to `end`.
#[derive(Debug, Clone, Copy, PartialEq, Eq, Structural)]
pub struct Frames {
    pub start: usize,
    pub end: usize,
}

/// The shape of an analysis of a range of a file of `frames` frames.
#[derive(Debug, Clone, Copy, PartialEq, Eq, Structural)]
pub struct Plan {
    pub spec: Spec,
    pub range: Frames,
    pub frames: usize,
    pub columns: usize,
    pub bins: usize,
    /// Windows per column, at most half a window apart.
    pub windows: usize,
}

/// The frames in a range, at least one.
pub open spec fn range_len(range: Frames) -> int {
    if range.start < range.end {
        range.end - range.start
    } else {
        1
    }
}

/// The least whole number that is at least `a / b`.
pub open spec fn ceiling(a: int, b: int) -> int {
    if a % b == 0 {
        a / b
    } else {
        a / b + 1
    }
}

pub open spec fn columns_of(range: Frames) -> int {
    least(range_len(range), MAX_COLUMNS as int)
}

/// Enough windows that every sample passes near the middle of one rather
/// than only through faded edges, and each column keeps the loudest: on a
/// long recording one column spans seconds, and sampling or averaging it
/// would hide a short call inside.
pub open spec fn windows_of(range: Frames, fft: usize) -> int {
    ceiling(2 * range_len(range), columns_of(range) * fft)
}

/// The frames to read: the range, plus half a window either side.
pub open spec fn wanted_of(range: Frames, fft: usize, frames: usize) -> Frames {
    let half = fft / 2;
    Frames {
        start: if range.start >= half {
            (range.start - half) as usize
        } else {
            0
        },
        end: least(range.end + half, frames as int) as usize,
    }
}

proof fn lemma_few_windows(len: int, columns: int, fft: int)
    requires
        len >= 1,
        columns == least(len, MAX_COLUMNS as int),
        fft >= 1,
    ensures
        columns * fft > 0,
        0 <= (2 * len) / (columns * fft),
        (2 * len) / (columns * fft) <= 2 || (2 * len) / (columns * fft) <= len / 1024,
        (2 * len) % (columns * fft) == 0 ==> (2 * len) / (columns * fft) >= 1,
        len < MAX_COLUMNS ==> (2 * len) / (columns * fft) <= 2,
{
    let a = 2 * len;
    let b = columns * fft;
    assert(b >= columns) by (nonlinear_arith)
        requires
            b == columns * fft,
            columns >= 1,
            fft >= 1,
    ;
    assert(a / b >= 0 && a == (a / b) * b + a % b && 0 <= a % b < b) by (nonlinear_arith)
        requires
            a >= 0,
            b > 0,
    ;
    let q = a / b;
    if a % b == 0 && q < 1 {
        assert(q * b == 0) by (nonlinear_arith)
            requires
                q == 0,
        ;
    }
    assert(q * columns <= a) by (nonlinear_arith)
        requires
            q >= 0,
            q * b <= a,
            b >= columns,
    ;
    if len < MAX_COLUMNS {
        assert(q <= 2) by (nonlinear_arith)
            requires
                q * columns <= 2 * len,
                columns == len,
                len >= 1,
        ;
    } else {
        assert(q * 2048 <= 2 * len);
    }
}

impl Plan {
    pub fn new(spec: Spec, range: Frames, frames: usize) -> (r: Plan)
        requires
            spec.fft > 0,
        ensures
            r.spec == spec,
            r.range == range,
            r.frames == frames,
            r.columns == columns_of(range),
            r.bins == spec.fft / 2 + 1,
            r.windows == windows_of(range, spec.fft),
            1 <= r.columns <= MAX_COLUMNS,
            r.windows >= 1,
    {
        let len: usize = if range.start < range.end {
            range.end - range.start
        } else {
            1
        };
        let columns: usize = if len < MAX_COLUMNS {
            len
        } else {
            MAX_COLUMNS
        };
        let a: u128 = 2 * (len as u128);
        proof {
            assert(0 < columns * spec.fft <= 2048 * usize::MAX) by (nonlinear_arith)
                requires
                    0 < columns <= 2048,
                    0 < spec.fft <= usize::MAX,
            ;
        }
        let b: u128 = (columns as u128) * (spec.fft as u128);
        let q: u128 = a / b;
        proof {
            lemma_few_windows(len as int, columns as int, spec.fft as int);
        }
        let windows: u128 = if a % b == 0 {
            q
        } else {
            q + 1
        };
        Plan {
            spec,
            range,
            frames,
            columns,
            bins: spec.fft / 2 + 1,
            windows: windows as usize,
        }
    }

    /// The frames to read: the range, plus half a window either side.
    pub fn wanted(&self) -> (r: Frames)
        ensures
            r == wanted_of(self.range, self.spec.fft, self.frames),
    {
        let half: usize = self.spec.fft / 2;
        let start: usize = if self.range.start >= half {
            self.range.start - half
        } else {
            0
        };
        let end: usize = if self.range.end >= self.frames || self.frames - self.range.end <= half {
            self.frames
        } else {
            self.range.end + half
        };
        Frames { start, end }
    }
}

/// The first column from `next` on that cannot be worked out yet, where
/// `needs_to` says up to which frame each column reads and frames up to
/// `have` are there; once `all` are there, none.
pub open spec fn ready_of(needs_to: Seq<usize>, next: int, have: usize, all: bool) -> int
    decreases needs_to.len() - next,
{
    if all || next >= needs_to.len() {
        needs_to.len() as int
    } else if needs_to[next] > have {
        next
    } else {
        ready_of(needs_to, next + 1, have, all)
    }
}

/// The first column from `next` on that cannot be worked out yet.
pub fn ready(needs_to: &[usize], next: usize, have: usize, all: bool) -> (r: usize)
    requires
        next <= needs_to@.len(),
    ensures
        r == ready_of(needs_to@, next as int, have, all),
        next <= r <= needs_to@.len(),
{
    if all {
        return needs_to.len();
    }
    let mut c: usize = next;
    while c < needs_to.len()
        invariant
            next <= c <= needs_to@.len(),
            !all,
            ready_of(needs_to@, next as int, have, all) == ready_of(
                needs_to@,
                c as int,
                have,
                all,
            ),
        decreases needs_to@.len() - c,
    {
        if needs_to[c] > have {
            return c;
        }
        c = c + 1;
    }
    c
}

/// Every column before the first that is not ready reads only frames that
/// are there, unless there are no more to come.
pub proof fn ready_columns_have_their_frames(
    needs_to: Seq<usize>,
    next: int,
    have: usize,
    column: int,
)
    requires
        0 <= next <= column < ready_of(needs_to, next, have, false),
    ensures
        needs_to[column] <= have,
    decreases needs_to.len() - next,
{
    if next < needs_to.len() && needs_to[next] <= have && next < column {
        ready_columns_have_their_frames(needs_to, next + 1, have, column);
    }
}

/// How many of the `held` frames from `start` on can be let go, where those
/// from `keep` on are still needed.
pub fn let_go(keep: usize, start: usize, held: usize) -> (r: usize)
    ensures
        r == if keep <= start {
            0
        } else {
            least(keep - start, held as int)
        },
        // Nothing that is needed goes, and all else does.
        r <= held,
        r > 0 ==> start + r <= keep,
        r < held ==> start + r >= keep,
{
    if keep <= start {
        0
    } else if keep - start < held {
        keep - start
    } else {
        held
    }
}

/// The end of a stretch of frames from `at` on that stays inside one column,
/// where the next column starts at `next` and the frames end at `to`: at
/// least one frame, and no more than are worked on in one go.
pub open spec fn stretch_of(at: usize, next: usize, to: usize) -> int {
    let end = if next > at {
        next as int
    } else {
        at + 1
    };
    least(least(end, to as int), at + STRETCH)
}

/// The end of a stretch of frames from `at` on that stays inside one column.
pub fn stretch(at: usize, next: usize, to: usize) -> (r: usize)
    requires
        at < to,
    ensures
        r == stretch_of(at, next, to),
        at < r <= to,
{
    let mut end: usize = if next > at {
        next
    } else {
        at + 1
    };
    if end > to {
        end = to;
    }
    if end - at > STRETCH {
        end = at + STRETCH;
    }
    end
}

/// The samples that a window of `size` centred on `signal[centre]` covers;
/// anything outside `signal` is silence.
pub fn window<T: Copy>(signal: &[T], centre: usize, size: usize, silence: T) -> (r: Vec<T>)
    requires
        centre + size <= usize::MAX,
    ensures
        r@ == Seq::new(
            size as nat,
            |i: int|
                {
                    let at = centre + i - (size / 2);
                    if 0 <= at < signal@.len() {
                        signal@[at]
                    } else {
                        silence
                    }
                },
        ),
{
    let half: usize = size / 2;
    let mut out: Vec<T> = Vec::new();
    let ghost want = Seq::new(
        size as nat,
        |i: int|
            {
                let at = centre + i - (size / 2);
                if 0 <= at < signal@.len() {
                    signal@[at]
                } else {
                    silence
                }
            },
    );
    let mut i: usize = 0;
    while i < size
        invariant
            i <= size,
            half == size / 2,
            centre + size <= usize::MAX,
            want == Seq::new(
                size as nat,
                |i: int|
                    {
                        let at = centre + i - (size / 2);
                        if 0 <= at < signal@.len() {
                            signal@[at]
                        } else {
                            silence
                        }
                    },
            ),
            out@ == want.take(i as int),
        decreases size - i,
    {
        let along: usize = centre + i;
        if along >= half && along - half < signal.len() {
            out.push(signal[along - half]);
        } else {
            out.push(silence);
        }
        i = i + 1;
        assert(out@ =~= want.take(i as int));
    }
    assert(want.take(i as int) =~= want);
    out
}

/// Frames either side of a centre that a single spectrum reads.
pub open spec fn probe_extent_of(fft: usize) -> int {
    (fft / 2) * 7 / 2 + fft / 2 + 1
}

/// Frames either side of a centre that a single spectrum reads.
pub fn probe_extent(fft: usize) -> (r: usize)
    requires
        fft <= usize::MAX / 8,
    ensures
        r == probe_extent_of(fft),
{
    let hop: usize = fft / 2;
    hop * 7 / 2 + hop + 1
}

/// The centre of each of the windows that a single spectrum around `centre`
/// is averaged over: half a window apart, as many before as after.
pub open spec fn probe_centre(centre: usize, fft: usize, w: int) -> int {
    let before = (fft / 2) * 7 / 2;
    (if centre >= before {
        centre - before
    } else {
        0
    }) + w * (fft / 2)
}

/// The centres of the windows that a single spectrum is averaged over.
pub fn probe_centres(centre: usize, fft: usize) -> (r: Vec<usize>)
    requires
        fft <= usize::MAX / 8,
        centre + 4 * fft <= usize::MAX,
    ensures
        r@.len() == PROBE_WINDOWS,
        forall|w: int| 0 <= w < r@.len() ==> #[trigger] r@[w] == probe_centre(centre, fft, w),
{
    let hop: usize = fft / 2;
    let before: usize = hop * 7 / 2;
    let first: usize = if centre >= before {
        centre - before
    } else {
        0
    };
    let mut out: Vec<usize> = Vec::new();
    let mut w: usize = 0;
    while w < PROBE_WINDOWS
        invariant
            w <= PROBE_WINDOWS,
            hop == fft / 2,
            first <= centre,
            centre + 4 * fft <= usize::MAX,
            first == if centre >= (fft / 2) * 7 / 2 {
                centre - (fft / 2) * 7 / 2
            } else {
                0
            },
            out@.len() == w,
            forall|k: int| 0 <= k < w ==> #[trigger] out@[k] == probe_centre(centre, fft, k),
        decreases PROBE_WINDOWS - w,
    {
        assert(w * hop <= 8 * hop) by (nonlinear_arith)
            requires
                w <= 8,
                hop >= 0,
        ;
        assert(w * hop >= 0) by (nonlinear_arith)
            requires
                w >= 0,
                hop >= 0,
        ;
        out.push(first + w * hop);
        w = w + 1;
    }
    out
}

/// A spectrum around a frame that is far enough from the start reads no
/// further than its extent says.
pub proof fn a_probe_stays_within_its_extent(centre: usize, fft: usize, w: int)
    requires
        centre >= (fft / 2) * 7 / 2,
        0 <= w < PROBE_WINDOWS,
    ensures
        probe_centre(centre, fft, w) - fft / 2 >= centre - probe_extent_of(fft),
        probe_centre(centre, fft, w) + fft / 2 <= centre + probe_extent_of(fft),
{
    let hop = fft / 2;
    assert(0 <= w * hop <= 7 * hop) by (nonlinear_arith)
        requires
            0 <= w <= 7,
            hop >= 0,
    ;
}

/// Neighbouring windows of a spectrum are half a window apart, and where the
/// frame is far enough from the start, the first lies as far before the frame
/// as the last lies behind it, to rounding, so they lie on both sides of it.
pub proof fn windows_lie_around_the_frame(centre: usize, fft: usize)
    ensures
        forall|w: int|
            probe_centre(centre, fft, w + 1) - #[trigger] probe_centre(centre, fft, w) == fft / 2,
        probe_centre(centre, fft, 0) <= centre,
        2 * centre >= 7 * (fft / 2) ==> {
            let before = centre - probe_centre(centre, fft, 0);
            let behind = probe_centre(centre, fft, PROBE_WINDOWS - 1) - centre;
            before == behind || behind == before + 1
        },
        2 * centre < 7 * (fft / 2) ==> probe_centre(centre, fft, 0) <= 1,
{
    let hop = (fft / 2) as int;
    assert forall|w: int|
        probe_centre(centre, fft, w + 1) - #[trigger] probe_centre(centre, fft, w) == fft / 2 by {
        assert((w + 1) * hop == w * hop + hop) by (nonlinear_arith);
    }
    assert(7 * hop == (PROBE_WINDOWS - 1) * hop);
}

} // verus!
