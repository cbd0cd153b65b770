//! Where playback is: seeks and loops, which frames of the file go out next,
//! and what the thread that keeps the output fed does when. What goes out
//! lies a second ahead of what is heard, so each position carries the number
//! of the seek that it belongs to.

use crate::text::{chars, part, string, trim_chars, trim_of};
use crate::wav::{first_index, least};
use vstd::prelude::*;

verus! {

/// Positions are packed with the number of the seek they belong to.
pub const FRAME_BITS: u32 = 48;

/// One more than the highest frame that is packed.
pub const FRAME_LIMIT: u64 = 0x1_0000_0000_0000;

/// The mark of a seek that has played to the end.
pub const FINISHED: u32 = 0x1_0000;

/// A seek's number and a frame in one word.
pub open spec fn packed_of(seek: u16, frame: u64) -> u64 {
    (seek * FRAME_LIMIT + frame % FRAME_LIMIT) as u64
}

/// A seek's number and a frame in one word.
pub fn pack(seek: u16, frame: u64) -> (r: u64)
    ensures
        r == packed_of(seek, frame),
{
    let high: u64 = seek as u64;
    assert((high << 48u64) | (frame & 0xFFFF_FFFF_FFFFu64) == high * 0x1_0000_0000_0000u64 + frame
        % 0x1_0000_0000_0000u64) by (bit_vector)
        requires
            high <= 0xFFFFu64,
    ;
    (high << 48u64) | (frame & 0xFFFF_FFFF_FFFFu64)
}

/// The seek's number and the frame of a word.
pub fn unpack(packed: u64) -> (r: (u16, u64))
    ensures
        r.0 == packed as nat / FRAME_LIMIT as nat,
        r.1 == packed % FRAME_LIMIT,
{
    assert(packed >> 48u64 == packed / 0x1_0000_0000_0000u64) by (bit_vector);
    assert(packed & 0xFFFF_FFFF_FFFFu64 == packed % 0x1_0000_0000_0000u64) by (bit_vector);
    assert(packed >> 48u64 <= 0xFFFFu64) by (bit_vector);
    ((packed >> 48u64) as u16, packed & 0xFFFF_FFFF_FFFFu64)
}

/// A position unpacks to the seek and the frame it was packed from, as long
/// as the frame is below 2^48.
pub proof fn positions_unpack_as_packed(seek: u16, frame: u64)
    requires
        frame < FRAME_LIMIT,
    ensures
        packed_of(seek, frame) as nat / FRAME_LIMIT as nat == seek,
        packed_of(seek, frame) % FRAME_LIMIT == frame,
{
    let l = FRAME_LIMIT as int;
    let s = seek as int;
    assert(s * l + frame <= 0xFFFF_FFFF_FFFF_FFFF);
    assert((s * l + frame) / l == s && (s * l + frame) % l == frame as int) by (nonlinear_arith)
        requires
            0 <= frame < l,
            l == 0x1_0000_0000_0000,
    ;
}

/// Frames of the file from `start` up to `end`.
#[derive(Debug, Clone, Copy, PartialEq, Eq, Structural)]
pub struct Span {
    pub start: usize,
    pub end: usize,
}

/// What the feeder is sent to start over: where from, under which number,
/// and what to repeat.
#[derive(Debug, Clone, Copy, PartialEq, Eq, Structural)]
pub struct Restart {
    pub frame: usize,
    pub seek: u16,
    pub looping: Option<Span>,
}

/// Where playback was last sent.
#[derive(Debug, Clone, Copy, PartialEq, Eq, Structural)]
pub struct Transport {
    /// Frames in the file.
    pub frames: usize,
    pub looping: Option<Span>,
    /// Seeks sent so far, and where the last one went: until the feeder has
    /// acted on it, playback is wherever it was last sent.
    pub seeks: u16,
    pub target: usize,
}

impl Transport {
    /// Whether the last seek has played to the end of the file, where
    /// `finished` is what was last marked.
    pub open spec fn is_finished(self, finished: u32) -> bool {
        finished == FINISHED + self.seeks
    }

    /// Where playback is, where `packed` is the position now heard.
    pub open spec fn place(self, finished: u32, packed: u64) -> usize {
        let (seek, frame) = (packed as nat / FRAME_LIMIT as nat, packed as nat % FRAME_LIMIT as nat);
        if self.is_finished(finished) {
            self.frames
        } else if seek == self.seeks {
            least(frame as int, self.frames as int) as usize
        } else {
            self.target
        }
    }

    /// Where a seek to `frame` goes: past the end of a loop to its start,
    /// and never past the end of the file.
    pub open spec fn landing(self, frame: usize) -> usize {
        match self.looping {
            Some(r) => if frame >= r.end {
                r.start
            } else {
                least(frame as int, self.frames as int) as usize
            },
            None => least(frame as int, self.frames as int) as usize,
        }
    }

    /// Playback sent to `frame`.
    pub open spec fn sent(self, frame: usize) -> Transport {
        Transport {
            seeks: if self.seeks == u16::MAX {
                0
            } else {
                (self.seeks + 1) as u16
            },
            target: self.landing(frame),
            ..self
        }
    }

    /// What the feeder is sent.
    pub open spec fn order(self) -> Restart {
        Restart { frame: self.target, seek: self.seeks, looping: self.looping }
    }

    /// The part of `range` that lies in the file, where any does.
    pub open spec fn cut_to_file(self, range: Option<Span>) -> Option<Span> {
        match range {
            Some(r) => {
                let start = least(r.start as int, self.frames as int);
                let end = least(r.end as int, self.frames as int);
                if start < end {
                    Some(Span { start: start as usize, end: end as usize })
                } else {
                    None
                }
            },
            None => None,
        }
    }

    /// Playback that repeats `range` from its start, or stops repeating at
    /// `position`, where it now is.
    pub open spec fn repeating(self, range: Option<Span>, position: usize) -> Transport {
        let looping = self.cut_to_file(range);
        let from = match looping {
            Some(r) => r.start,
            None => position,
        };
        Transport { looping, ..self }.sent(from)
    }

    /// The loop, where there is one, holds frames of the file.
    pub open spec fn wf(self) -> bool {
        self.looping matches Some(r) ==> r.start < r.end <= self.frames
    }

    /// Playback of a file of `frames` frames, from `start`.
    pub fn new(frames: usize, start: usize) -> (r: Transport)
        ensures
            r == (Transport { frames, looping: None, seeks: 0, target: start }),
            r.wf(),
    {
        Transport { frames, looping: None, seeks: 0, target: start }
    }

    /// The last seek has played to the end of the file.
    pub fn finished(&self, finished: u32) -> (r: bool)
        ensures
            r == self.is_finished(finished),
    {
        finished == FINISHED + self.seeks as u32
    }

    pub fn position(&self, finished: u32, packed: u64) -> (r: usize)
        ensures
            r == self.place(finished, packed),
    {
        if self.finished(finished) {
            return self.frames;
        }
        let (seek, frame) = unpack(packed);
        if seek == self.seeks {
            if frame < self.frames as u64 {
                frame as usize
            } else {
                self.frames
            }
        } else {
            self.target
        }
    }

    pub fn seek(&mut self, frame: usize) -> (r: Restart)
        ensures
            *final(self) == old(self).sent(frame),
            r == final(self).order(),
    {
        let frame: usize = match self.looping {
            Some(r) if frame >= r.end => r.start,
            _ => {
                if frame < self.frames {
                    frame
                } else {
                    self.frames
                }
            },
        };
        self.seeks = if self.seeks == u16::MAX {
            0
        } else {
            self.seeks + 1
        };
        self.target = frame;
        Restart { frame, seek: self.seeks, looping: self.looping }
    }

    /// Plays from the current position, or from the start once at the end:
    /// what to send the feeder, if anything.
    pub fn play(&mut self, finished: u32) -> (r: Option<Restart>)
        ensures
            if old(self).is_finished(finished) {
                *final(self) == old(self).sent(0) && r == Some(final(self).order())
            } else {
                *final(self) == *old(self) && r is None
            },
    {
        if self.finished(finished) {
            Some(self.seek(0))
        } else {
            None
        }
    }

    /// Repeats `range` from its start, or stops repeating where playback now
    /// is.
    pub fn set_loop(&mut self, range: Option<Span>, position: usize) -> (r: Restart)
        ensures
            *final(self) == old(self).repeating(range, position),
            final(self).wf(),
            r == final(self).order(),
    {
        let looping = match range {
            Some(r) => {
                let start: usize = if r.start < self.frames {
                    r.start
                } else {
                    self.frames
                };
                let end: usize = if r.end < self.frames {
                    r.end
                } else {
                    self.frames
                };
                if start < end {
                    Some(Span { start, end })
                } else {
                    None
                }
            },
            None => None,
        };
        let from: usize = match looping {
            Some(r) => r.start,
            None => position,
        };
        self.looping = looping;
        self.seek(from)
    }
}

/// Until the feeder has acted on a seek, playback is where it was sent:
/// whatever was packed, or marked finished, for the seek before says nothing
/// of it.
pub proof fn a_seek_is_where_it_went_until_it_is_acted_on(
    t: Transport,
    frame: usize,
    finished: u32,
    packed: u64,
)
    requires
        packed as nat / FRAME_LIMIT as nat == t.seeks,
        t.is_finished(finished) || finished == 0,
    ensures
        t.sent(frame).place(finished, packed) == t.sent(frame).target,
        !t.sent(frame).is_finished(finished),
{
}

/// Wherever playback is sent, it lands in the file, and before the end of
/// the loop where there is one.
pub proof fn a_seek_lands_in_the_file(t: Transport, frame: usize)
    requires
        t.wf(),
    ensures
        t.sent(frame).target <= t.frames,
        t.looping matches Some(r) ==> t.sent(frame).target < r.end,
        t.sent(frame).wf(),
{
}

/// What the feeder can be told.
#[derive(Debug, Clone, Copy, PartialEq, Eq, Structural)]
pub enum Command {
    Restart(Restart),
    /// Playback resumed, so more is needed again.
    Wake,
    Quit,
}

/// What commands come to: `None` is to stop, and else the last restart is
/// the only one that matters.
pub open spec fn gathered(commands: Seq<Command>) -> Option<Option<Restart>>
    decreases commands.len(),
{
    if commands.len() == 0 {
        Some(None)
    } else {
        match (gathered(commands.drop_last()), commands.last()) {
            (None, _) => None,
            (_, Command::Quit) => None,
            (Some(_), Command::Restart(r)) => Some(Some(r)),
            (Some(before), Command::Wake) => Some(before),
        }
    }
}

/// Everything queued is taken before any work: dragging across the
/// spectrogram sends a burst of seeks, and only the last one matters.
pub fn gather(commands: &[Command]) -> (r: Option<Option<Restart>>)
    ensures
        r == gathered(commands@),
{
    let mut restart: Option<Restart> = None;
    let mut i: usize = 0;
    assert(commands@.take(0) =~= Seq::<Command>::empty());
    while i < commands.len()
        invariant
            i <= commands@.len(),
            gathered(commands@.take(i as int)) == Some(restart),
        decreases commands@.len() - i,
    {
        proof {
            assert(commands@.take(i + 1).drop_last() =~= commands@.take(i as int));
        }
        match commands[i] {
            Command::Restart(r) => {
                restart = Some(r);
            },
            Command::Wake => {},
            Command::Quit => {
                proof {
                    lemma_quit(commands@, i + 1);
                }
                return None;
            },
        }
        i = i + 1;
    }
    assert(commands@.take(i as int) =~= commands@);
    Some(restart)
}

proof fn lemma_quit(commands: Seq<Command>, i: int)
    requires
        0 <= i <= commands.len(),
        gathered(commands.take(i)) is None,
    ensures
        gathered(commands) is None,
    decreases commands.len() - i,
{
    if i < commands.len() {
        assert(commands.take(i + 1).drop_last() =~= commands.take(i));
        lemma_quit(commands, i + 1);
    } else {
        assert(commands.take(i) =~= commands);
    }
}

/// What the feeder does next.
#[derive(Debug, Clone, Copy, PartialEq, Eq, Structural)]
pub enum Act {
    /// Put another block in the queue.
    Render,
    /// Wait to be told something, no longer than until more is needed if
    /// `timed`. `finished` is to be marked first.
    Wait { finished: Option<u32>, timed: bool },
}

/// The feeder: which seek it works on, and whether all of that is queued.
#[derive(Debug, Clone, Copy, PartialEq, Eq, Structural)]
pub struct Feeder {
    pub seek: u16,
    pub drained: bool,
}

impl Feeder {
    /// What the feeder does next, where the queue has `room` for samples of
    /// `capacity`, and a block takes `block`.
    pub open spec fn does(self, room: usize, block: usize, capacity: usize, playing: bool) -> Act {
        if !self.drained && room >= block {
            Act::Render
        } else {
            Act::Wait {
                finished: if self.drained && room == capacity {
                    Some((FINISHED + self.seek) as u32)
                } else {
                    None
                },
                timed: playing,
            }
        }
    }

    pub fn new() -> (r: Feeder)
        ensures
            r == (Feeder { seek: 0, drained: false }),
    {
        Feeder { seek: 0, drained: false }
    }

    /// Playback starts over.
    pub fn restarted(&mut self, restart: Restart)
        ensures
            *final(self) == (Feeder { seek: restart.seek, drained: false }),
    {
        self.seek = restart.seek;
        self.drained = false;
    }

    /// A block was asked for; there is none once everything has been played.
    pub fn rendered(&mut self, any: bool)
        ensures
            *final(self) == (Feeder { drained: old(self).drained || !any, ..*old(self) }),
    {
        if !any {
            self.drained = true;
        }
    }

    pub fn next(&self, room: usize, block: usize, capacity: usize, playing: bool) -> (r: Act)
        ensures
            r == self.does(room, block, capacity, playing),
    {
        if !self.drained && room >= block {
            return Act::Render;
        }
        let finished: Option<u32> = if self.drained && room == capacity {
            Some(FINISHED + self.seek as u32)
        } else {
            None
        };
        Act::Wait { finished, timed: playing }
    }
}

/// The end of the file is only marked for the seek that was played to it,
/// once everything of it has left the queue.
pub proof fn the_end_is_marked_once_all_was_heard(
    f: Feeder,
    t: Transport,
    room: usize,
    block: usize,
    capacity: usize,
    playing: bool,
)
    requires
        f.does(room, block, capacity, playing) matches Act::Wait { finished: Some(mark), timed }
            && t.is_finished(mark),
    ensures
        f.drained,
        room == capacity,
        f.seek == t.seeks,
{
}

/// Frames of the file to put into a block: `count` of them from `first` on,
/// to stand in the block from `at` on.
#[derive(Debug, Clone, Copy, PartialEq, Eq, Structural)]
pub struct Read {
    pub first: usize,
    pub at: usize,
    pub count: usize,
}

/// Where the next block is read from.
#[derive(Debug, Clone, Copy, PartialEq, Eq, Structural)]
pub struct Reel {
    pub frames: usize,
    /// Next source frame to read.
    pub next: usize,
    /// Frames played over and over: reading wraps from the end to the start
    /// and never finishes.
    pub looping: Option<Span>,
}

/// The source frame `i` frames on from `next` round a loop.
pub open spec fn round(r: Span, next: int, i: int) -> int {
    let from = if next >= r.end {
        r.start as int
    } else {
        next
    };
    if from + i < r.end {
        from + i
    } else {
        r.start + (from + i - r.end) % (r.end - r.start)
    }
}

/// Whether read `k` puts something at `i`.
pub open spec fn puts_at(reads: Seq<Read>, k: int, i: int) -> bool {
    0 <= k < reads.len() && reads[k].at <= i < reads[k].at + reads[k].count
}

/// Whether some read puts something at `i`.
pub open spec fn is_put(reads: Seq<Read>, i: int) -> bool {
    exists|k: int| puts_at(reads, k, i)
}

/// Whether the reads fill the first `n` frames of a block, each frame `i`
/// with the source frame that `source` says, and no more of it.
pub open spec fn fills(reads: Seq<Read>, n: int, source: spec_fn(int) -> int) -> bool {
    &&& forall|k: int, i: int| #[trigger]
        puts_at(reads, k, i) ==> i < n && source(i) == reads[k].first + (i - reads[k].at)
    &&& forall|i: int| 0 <= i < n ==> #[trigger] is_put(reads, i)
}

impl Reel {
    pub open spec fn wf(self) -> bool {
        self.looping matches Some(r) ==> r.start < r.end <= self.frames
    }

    /// The source frame for frame `i` of the next block.
    pub open spec fn source(self) -> spec_fn(int) -> int {
        |i: int| match self.looping {
            Some(r) => round(r, self.next as int, i),
            None => self.next + i,
        }
    }

    /// How many frames of a block of `count` come from the file; the rest
    /// is silence.
    pub open spec fn available(self, count: int) -> int {
        match self.looping {
            Some(_) => count,
            None => if self.next >= self.frames {
                0
            } else {
                least(self.frames - self.next, count)
            },
        }
    }

    /// Where reading goes on after a block of `count`.
    pub open spec fn after(self, count: int) -> int {
        match self.looping {
            Some(r) => if count == 0 {
                self.next as int
            } else {
                round(r, self.next as int, count - 1) + 1
            },
            None => self.next + count,
        }
    }

    /// The reads that fill the next block of `count` frames.
    pub fn take(&mut self, count: usize) -> (r: Vec<Read>)
        requires
            old(self).wf(),
            old(self).next + count <= usize::MAX,
        ensures
            fills(r@, old(self).available(count as int), old(self).source()),
            final(self).next == old(self).after(count as int),
            final(self).frames == old(self).frames,
            final(self).looping == old(self).looping,
    {
        let ghost first = *self;
        let ghost source = self.source();
        let mut reads: Vec<Read> = Vec::new();
        match self.looping {
            None => {
                if self.next < self.frames && count > 0 {
                    let left: usize = self.frames - self.next;
                    let n: usize = if left < count {
                        left
                    } else {
                        count
                    };
                    reads.push(Read { first: self.next, at: 0, count: n });
                }
                self.next = self.next + count;
                proof {
                    let n = first.available(count as int);
                    if n > 0 {
                        assert forall|i: int| 0 <= i < n implies #[trigger] is_put(reads@, i) by {
                            assert(puts_at(reads@, 0, i));
                        }
                    }
                }
            },
            Some(range) => {
                let mut filled: usize = 0;
                while filled < count
                    invariant
                        self.looping == Some(range),
                        self.frames == first.frames,
                        first.looping == Some(range),
                        source == first.source(),
                        range.start < range.end,
                        filled <= count,
                        filled == 0 ==> self.next == first.next,
                        filled > 0 ==> self.next == round(range, first.next as int, filled - 1) + 1,
                        fills(reads@, filled as int, source),
                    decreases count - filled,
                {
                    let ghost before = reads@;
                    let ghost done = filled as int;
                    if self.next >= range.end {
                        self.next = range.start;
                    }
                    let left: usize = range.end - self.next;
                    let n: usize = if left < count - filled {
                        left
                    } else {
                        count - filled
                    };
                    proof {
                        assert forall|i: int| done <= i < done + n implies #[trigger] round(
                            range,
                            first.next as int,
                            i,
                        ) == self.next + (i - done) by {
                            lemma_round(range, first.next as int, done, i - done, self.next as int);
                        }
                    }
                    let read = Read { first: self.next, at: filled, count: n };
                    reads.push(read);
                    filled = filled + n;
                    self.next = self.next + n;
                    proof {
                        assert(round(range, first.next as int, filled - 1) == self.next - 1);
                        assert forall|k: int, i: int| #[trigger] puts_at(reads@, k, i) implies i
                            < filled && source(i) == reads@[k].first + (i - reads@[k].at) by {
                            if k < before.len() {
                                assert(reads@[k] == before[k]);
                                assert(puts_at(before, k, i));
                            } else {
                                assert(source(i) == round(range, first.next as int, i));
                            }
                        }
                        assert forall|i: int| 0 <= i < filled implies #[trigger] is_put(
                            reads@,
                            i,
                        ) by {
                            if i < done {
                                assert(is_put(before, i));
                                let k = choose|k: int| puts_at(before, k, i);
                                assert(reads@[k] == before[k]);
                                assert(puts_at(reads@, k, i));
                            } else {
                                assert(puts_at(reads@, before.len() as int, i));
                            }
                        }
                    }
                }
            },
        }
        reads
    }
}

/// Going on round a loop from the frame after `done`.
proof fn lemma_round(r: Span, next: int, done: int, j: int, at: int)
    requires
        r.start < r.end,
        0 <= done,
        0 <= j,
        at + j < r.end,
        ({
            let from = if done == 0 {
                next
            } else {
                round(r, next, done - 1) + 1
            };
            at == if from >= r.end {
                r.start as int
            } else {
                from
            }
        }),
    ensures
        round(r, next, done + j) == at + j,
{
    let len = r.end - r.start;
    let from = if next >= r.end {
        r.start as int
    } else {
        next
    };
    if done == 0 {
    } else if from + (done - 1) < r.end {
        let last = from + (done - 1);
        if last + 1 < r.end {
        } else {
            assert(at == r.start);
            assert(from + done + j - r.end == j);
            assert(j % len == j) by (nonlinear_arith)
                requires
                    0 <= j < len,
            ;
        }
    } else {
        let m = from + (done - 1) - r.end;
        let q = m / len;
        let k = m % len;
        assert(m == len * q + k && 0 <= k < len) by (nonlinear_arith)
            requires
                len > 0,
                q == m / len,
                k == m % len,
        ;
        assert(round(r, next, done - 1) == r.start + k);
        if k + 1 < len {
            assert(at == r.start + k + 1);
            assert((m + 1 + j) % len == k + 1 + j) by (nonlinear_arith)
                requires
                    m == len * q + k,
                    0 <= k + 1 + j < len,
            ;
        } else {
            assert(at == r.start);
            assert((m + 1 + j) % len == j) by (nonlinear_arith)
                requires
                    m == len * q + k,
                    k + 1 == len,
                    0 <= j < len,
            ;
        }
        assert(from + (done + j) - r.end == m + 1 + j);
    }
}

/// Once in a loop, playback stays in it however long it goes on.
pub proof fn a_loop_never_leaves_its_range(r: Span, next: int, i: int)
    requires
        r.start < r.end,
        r.start <= next,
        0 <= i,
    ensures
        r.start <= round(r, next, i) < r.end,
{
    let from = if next >= r.end {
        r.start as int
    } else {
        next
    };
    if from + i >= r.end {
        let len = r.end - r.start;
        let m = from + i - r.end;
        assert(0 <= m % len < len) by (nonlinear_arith)
            requires
                len > 0,
        ;
    }
}

/// Of what was produced, how much to drop at the start, and how much after
/// that to keep.
#[derive(Debug, Clone, Copy, PartialEq, Eq, Structural)]
pub struct Kept {
    pub dropped: usize,
    pub kept: usize,
}

/// Of `produced` frames, those that come out ahead of the frame they start
/// from are dropped, `skip` of them still to go; of the others no more are
/// kept than `remaining`, where playback ends with the recording.
pub fn keep(produced: usize, skip: &mut usize, remaining: Option<usize>) -> (r: Kept)
    ensures
        r.dropped == least(produced as int, *old(skip) as int),
        *final(skip) == *old(skip) - r.dropped,
        r.kept == match remaining {
            Some(n) => least(produced - r.dropped, n as int),
            None => produced - r.dropped,
        },
        // Nothing is kept while there is more to drop, nor anything but what
        // was produced.
        r.dropped + r.kept <= produced,
        *final(skip) > 0 ==> r.dropped == produced && r.kept == 0,
        *final(skip) == 0 && remaining is None ==> *old(skip) + r.kept == produced,
{
    let dropped: usize = if produced < *skip {
        produced
    } else {
        *skip
    };
    *skip = *skip - dropped;
    let left: usize = produced - dropped;
    let kept: usize = match remaining {
        Some(n) => {
            if n < left {
                n
            } else {
                left
            }
        },
        None => left,
    };
    Kept { dropped, kept }
}

/// The first two channels of frames of `channels` samples each: mono is
/// doubled, and channels past the second are left out.
pub fn stereo<T: Copy>(samples: &[T], channels: usize, out: &mut Vec<[T; 2]>)
    requires
        channels > 0,
    ensures
        final(out)@.len() == samples@.len() / channels as nat,
        forall|i: int|
            0 <= i < final(out)@.len() ==> (#[trigger] final(out)@[i])@ == seq![
                samples@[i * channels],
                samples@[i * channels + if channels > 1 {
                    1int
                } else {
                    0
                }],
            ],
{
    out.clear();
    let len: usize = samples.len();
    let frames: usize = len / channels;
    let right: usize = if channels > 1 {
        1
    } else {
        0
    };
    let mut i: usize = 0;
    while i < frames
        invariant
            i <= frames,
            len == samples@.len(),
            channels > 0,
            frames == len / channels,
            right == if channels > 1 {
                1int
            } else {
                0
            },
            out@.len() == i,
            forall|k: int|
                0 <= k < i ==> (#[trigger] out@[k])@ == seq![
                    samples@[k * channels],
                    samples@[k * channels + right],
                ],
        decreases frames - i,
    {
        proof {
            assert(i * channels + channels <= len) by (nonlinear_arith)
                requires
                    i < frames,
                    frames == len / channels,
                    channels > 0,
            ;
        }
        let at: usize = i * channels;
        let pair = [samples[at], samples[at + right]];
        assert(pair@ =~= seq![samples@[i * channels], samples@[i * channels + right]]);
        out.push(pair);
        i = i + 1;
    }
}

/// Whether `c` marks a number as a speed.
pub open spec fn speed_mark(c: char) -> bool {
    c == '×' || c == 'x' || c == 'X'
}

/// `s` without the marks at its start.
pub open spec fn unmarked_start(s: Seq<char>) -> Seq<char>
    decreases s.len(),
{
    if s.len() > 0 && speed_mark(s[0]) {
        unmarked_start(s.skip(1))
    } else {
        s
    }
}

/// `s` without the marks at its end.
pub open spec fn unmarked_end(s: Seq<char>) -> Seq<char>
    decreases s.len(),
{
    if s.len() > 0 && speed_mark(s.last()) {
        unmarked_end(s.drop_last())
    } else {
        s
    }
}

/// The numbers of a speed as it is typed: 2, 2.5, 1/8 or 0.125, with × or x
/// or without.
pub open spec fn speed_parts_of(text: Seq<char>) -> (Seq<char>, Option<Seq<char>>) {
    let s = trim_of(unmarked_end(unmarked_start(trim_of(text))));
    let at = first_index(s, crate::rename::is_char('/'), 0);
    if at < s.len() {
        (trim_of(s.take(at)), Some(trim_of(s.skip(at + 1))))
    } else {
        (s, None)
    }
}

/// The numbers of a speed as it is typed.
pub fn speed_parts(text: &str) -> (r: (String, Option<String>))
    ensures
        (r.0@, crate::wav::text_view(r.1)) == speed_parts_of(text@),
{
    let v = chars(text);
    let t = trim_chars(v.as_slice());
    let mut start: usize = 0;
    let mut end: usize = t.len();
    let ghost inner = unmarked_start(t@);
    assert(t@.skip(0) =~= t@);
    while start < t.len() && (t[start] == '×' || t[start] == 'x' || t[start] == 'X')
        invariant
            start <= t@.len(),
            unmarked_start(t@) == unmarked_start(t@.skip(start as int)),
        decreases t@.len() - start,
    {
        assert(t@.skip(start as int).skip(1) =~= t@.skip(start + 1));
        start = start + 1;
    }
    assert(inner == t@.skip(start as int));
    assert(t@.subrange(start as int, end as int) =~= inner);
    while end > start && (t[end - 1] == '×' || t[end - 1] == 'x' || t[end - 1] == 'X')
        invariant
            start <= end <= t@.len(),
            unmarked_end(inner) == unmarked_end(t@.subrange(start as int, end as int)),
        decreases end,
    {
        assert(t@.subrange(start as int, end as int).drop_last() =~= t@.subrange(
            start as int,
            end - 1,
        ));
        end = end - 1;
    }
    let bare = part(t.as_slice(), start, end);
    assert(bare@ == unmarked_end(inner));
    let s = trim_chars(bare.as_slice());
    let mut at: usize = 0;
    while at < s.len() && s[at] != '/'
        invariant
            at <= s@.len(),
            first_index(s@, crate::rename::is_char('/'), 0) == first_index(
                s@,
                crate::rename::is_char('/'),
                at as int,
            ),
        decreases s@.len() - at,
    {
        at = at + 1;
    }
    if at < s.len() {
        let a = part(s.as_slice(), 0, at);
        let b = part(s.as_slice(), at + 1, s.len());
        assert(a@ =~= s@.take(at as int));
        assert(b@ =~= s@.skip(at + 1));
        let x = trim_chars(a.as_slice());
        let y = trim_chars(b.as_slice());
        (string(x.as_slice()), Some(string(y.as_slice())))
    } else {
        (string(s.as_slice()), None)
    }
}

} // verus!
