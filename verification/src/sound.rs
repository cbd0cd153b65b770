//! That the frames of a recording are read, shown and heard where they are.

use crate::audio::{
    available_of, container_of, file_rows_of, parts_from, pcm_frames, piece_of, silence_of,
    skipped_of, spread_all, InfoView, Need, Queue, Timeline, PARALLEL_FRAMES, PIECE,
};
use crate::levels::{block_of, blocks_of, channel_stats};
use crate::path::{an_extension_follows_the_last_dot, file_name_of, parent_of};
use crate::playback::{
    gathered, packed_of, positions_unpack_as_packed, round, Act, Command, Feeder, Reel, Restart,
    Span, Transport, FRAME_LIMIT,
};
use crate::probe::{reads_of, Request};
use crate::spectrogram::{
    columns_of, probe_extent_of, range_len, stretch_of, wanted_of, windows_of, Channels, Frames,
    Target, MAX_COLUMNS, STRETCH,
};
use crate::text::{digits_of, uppered};
use crate::views::columns_at;
use vstd::prelude::*;

verus! {

/// A file has as many frames as its bytes make whole: no more fit, and what is
/// left over does not make another.
pub proof fn frames_are_whole(bytes: int, frame: int)
    requires
        0 <= bytes <= usize::MAX,
        frame > 0,
    ensures
        pcm_frames(bytes, frame) * frame <= bytes < (pcm_frames(bytes, frame) + 1) * frame,
{
    let q = bytes / frame;
    assert(q * frame <= bytes < (q + 1) * frame) by (nonlinear_arith)
        requires
            q == bytes / frame,
            frame > 0,
    ;
}

/// A read gets what was asked for where the file has it, and otherwise what
/// there is up to the end.
pub proof fn a_read_stops_at_the_end(frames: int, first: int, wanted: int)
    requires
        0 <= frames,
        0 <= first,
        0 <= wanted,
    ensures
        first + wanted <= frames ==> available_of(frames, first, wanted) == wanted,
        first <= frames < first + wanted ==> first + available_of(frames, first, wanted) == frames,
        first > frames ==> available_of(frames, first, wanted) == 0,
{
}

/// The parts of a read come one after another: the first at its start, each
/// where the one before it ended, the last up to its end, and each at its own
/// bytes of the file.
pub proof fn parts_come_one_after_another(from: int, frame: int, available: int, done: int)
    requires
        0 <= from,
        frame > 0,
        0 <= done <= available <= usize::MAX,
        from + available * frame <= u64::MAX,
    ensures
        ({
            let parts = parts_from(from, frame, available, done);
            &&& done < available <==> parts.len() > 0
            &&& parts.len() > 0 ==> parts[0].at == done && parts.last().at + parts.last().frames
                == available
            &&& forall|i: int|
                0 <= i < parts.len() ==> 0 < (#[trigger] parts[i]).frames <= PARALLEL_FRAMES
                    && parts[i].from == from + parts[i].at * frame
            &&& forall|i: int, j: int|
                0 <= i && j == i + 1 && j < parts.len() ==> (#[trigger] parts[j]).at == (
                #[trigger] parts[i]).at + parts[i].frames
        }),
    decreases available - done,
{
    if done < available {
        let n = if available - done <= PARALLEL_FRAMES {
            available - done
        } else {
            PARALLEL_FRAMES as int
        };
        parts_come_one_after_another(from, frame, available, done + n);
        assert(0 <= done * frame <= available * frame) by (nonlinear_arith)
            requires
                0 <= done <= available,
                frame > 0,
        ;
        let rest = parts_from(from, frame, available, done + n);
        let parts = parts_from(from, frame, available, done);
        assert(parts.skip(1) =~= rest);
        assert forall|i: int| 0 <= i < parts.len() implies 0 < (#[trigger] parts[i]).frames
            <= PARALLEL_FRAMES && parts[i].from == from + parts[i].at * frame by {
            if i > 0 {
                assert(parts[i] == rest[i - 1]);
            }
        }
        assert forall|i: int, j: int| 0 <= i && j == i + 1 && j < parts.len() implies (
        #[trigger] parts[j]).at == (#[trigger] parts[i]).at + parts[i].frames by {
            assert(parts[j] == rest[j - 1]);
            if i > 0 {
                assert(parts[i] == rest[i - 1]);
            }
        }
        if rest.len() > 0 {
            assert(parts.last() == rest.last());
        }
    }
}

/// Reads are of whole blocks, as many as fit.
pub proof fn a_piece_is_of_whole_blocks(block: usize)
    requires
        block > 0,
    ensures
        piece_of(block) % (block as int) == 0,
        block <= PIECE ==> 0 < piece_of(block) <= PIECE && piece_of(block) + block > PIECE,
        block > PIECE ==> piece_of(block) == block,
{
    let (p, b) = (PIECE as int, block as int);
    let q = p / b;
    assert(q * b <= p < (q + 1) * b && (q * b) % b == 0 && b % b == 0 && (b <= p ==> q > 0) && (b > p
        ==> q == 0)) by (nonlinear_arith)
        requires
            q == p / b,
            b > 0,
            p >= 0,
    ;
    assert((q + 1) * b == q * b + b) by (nonlinear_arith);
    if b <= p {
        assert(q * b > 0) by (nonlinear_arith)
            requires
                q > 0,
                b > 0,
        ;
    }
}

/// Where there are as many ticks as frames, a frame is at its own tick, and a
/// later tick is never at an earlier frame.
pub proof fn ticks_count_frames(t: Timeline, n: nat, more: nat)
    requires
        t.wf(),
        t.start + n + more <= i64::MAX,
        n + more <= usize::MAX,
        t.per == t.ticks,
    ensures
        t.frame_at((t.start + n) as i64) == n,
        t.tick_at(n as usize) == t.start + n,
        t.frame_at((t.start + n) as i64) <= t.frame_at((t.start + n + more) as i64),
        t.frame_at(t.start) == 0,
{
    let p = t.per as nat;
    assert((n * p) / p == n) by (nonlinear_arith)
        requires
            p > 0,
    ;
    assert(((n + more) * p) / p == n + more) by (nonlinear_arith)
        requires
            p > 0,
    ;
}

/// A packet that comes late is joined on with silence up to where it belongs,
/// and of one that comes early what was there already is left out, so that it
/// ends where it should.
pub proof fn packets_are_joined_where_they_belong(end: int, at: int, frames: int, most: int)
    requires
        0 <= end,
        0 <= at,
        0 <= frames,
        0 <= most,
    ensures
        0 <= silence_of(end, at, most) <= most,
        0 <= skipped_of(end, at, frames) <= frames,
        silence_of(end, at, most) == 0 || skipped_of(end, at, frames) == 0,
        end <= at <= end + most ==> end + silence_of(end, at, most) == at,
        at <= end <= at + frames ==> at + skipped_of(end, at, frames) == end,
        at <= end + most && end <= at + frames ==> end + silence_of(end, at, most) + frames
            - skipped_of(end, at, frames) == at + frames,
{
}

/// A queue says that frames are ready only where it has them, that it needs to
/// decode only where there is more to come, and that it must seek only where
/// the frames asked for are behind it or too far ahead.
pub proof fn a_queue_gives_what_it_has<T>(q: Queue<T>, first: usize, wanted: usize)
    requires
        q.wf(),
    ensures
        ({
            let end = q.from + q.queued();
            match q.need_of(first, wanted) {
                Need::Ready(n) => {
                    &&& n <= wanted
                    &&& n > 0 ==> q.from <= first && first + n <= end
                    &&& n < wanted ==> q.ended && (first + n == end || first > end)
                },
                Need::Decode => !q.ended && first + wanted > end && q.from <= first,
                Need::Seek => first < q.from || first > end + q.forward,
            }
        }),
{
}

proof fn lemma_spread_len<T>(samples: Seq<T>, from: int, to: int, first: int, end: int)
    requires
        0 <= first <= end,
        0 < to,
    ensures
        spread_all(samples, from, to, first, end).len() == (end - first) * to,
    decreases end - first,
{
    if first < end {
        lemma_spread_len(samples, from, to, first, end - 1);
        assert((end - 1 - first) * to + to == (end - first) * to) by (nonlinear_arith);
    } else {
        assert((end - first) * to == 0) by (nonlinear_arith)
            requires
                end == first,
        ;
    }
}

/// Frames of other channels than the file has are made of its own: channel for
/// channel as far as there are both, and the last one again for those it has
/// not.
pub proof fn channels_go_where_they_belong<T>(
    samples: Seq<T>,
    from: int,
    to: int,
    first: int,
    end: int,
    f: int,
    c: int,
)
    requires
        0 < from,
        0 < to,
        0 <= first <= f < end,
        0 <= c < to,
    ensures
        spread_all(samples, from, to, first, end).len() == (end - first) * to,
        0 <= (f - first) * to + c < (end - first) * to,
        c < from ==> spread_all(samples, from, to, first, end)[(f - first) * to + c] == samples[f
            * from + c],
        c >= from ==> spread_all(samples, from, to, first, end)[(f - first) * to + c] == samples[f
            * from + from - 1],
    decreases end - first,
{
    lemma_spread_len(samples, from, to, first, end);
    lemma_spread_len(samples, from, to, first, end - 1);
    let k = (f - first) * to + c;
    assert((end - 1 - first) * to + to == (end - first) * to) by (nonlinear_arith);
    if f < end - 1 {
        channels_go_where_they_belong(samples, from, to, first, end - 1, f, c);
    } else {
        assert(f - first == end - 1 - first);
    }
}

/// Every channel is shown once, in its order, where all are asked for; one
/// channel where one is; and otherwise all of them mixed.
pub proof fn every_channel_is_shown_once(count: usize, c: usize)
    ensures
        count > 1 ==> Channels::All.targets_of(count).len() == count && forall|i: int|
            0 <= i < count ==> #[trigger] Channels::All.targets_of(count)[i] == Target::Channel(
                i as usize,
            ),
        count <= 1 ==> Channels::All.targets_of(count) == seq![Target::Mix],
        c < count ==> Channels::One(c).targets_of(count) == seq![Target::Channel(c)],
        c >= count ==> Channels::One(c).targets_of(count) == seq![Target::Mix],
        Channels::Mix.targets_of(count) == seq![Target::Mix],
{
}

/// The windows of a picture are as few as cover its range half by half: one
/// less to each column would leave some of it out.
pub proof fn windows_cover_the_range(range: Frames, fft: usize)
    requires
        fft > 0,
    ensures
        1 <= columns_of(range) <= MAX_COLUMNS,
        columns_of(range) <= range_len(range),
        range.start < range.end ==> range_len(range) == range.end - range.start,
        windows_of(range, fft) * columns_of(range) * fft >= 2 * range_len(range),
        (windows_of(range, fft) - 1) * columns_of(range) * fft < 2 * range_len(range),
{
    let a = 2 * range_len(range);
    let b = columns_of(range) * fft;
    assert(b > 0) by (nonlinear_arith)
        requires
            b == columns_of(range) * fft,
            columns_of(range) >= 1,
            fft > 0,
    ;
    let q = a / b;
    assert(a == q * b + a % b && 0 <= a % b < b) by (nonlinear_arith)
        requires
            q == a / b,
            b > 0,
    ;
    let w = windows_of(range, fft);
    assert((q + 1) * b == q * b + b && (q - 1) * b == q * b - b) by (nonlinear_arith);
    assert(w * b >= a && (w - 1) * b < a);
    let (c, f) = (columns_of(range), fft as int);
    assert(w * c * f == w * b && (w - 1) * c * f == (w - 1) * b) by (nonlinear_arith)
        requires
            b == c * f,
    ;
}

/// What is read for a picture is its range and half a window on either side,
/// as far as the file goes.
pub proof fn half_a_window_more_is_read(range: Frames, fft: usize, frames: usize)
    requires
        range.start <= range.end <= frames,
    ensures
        ({
            let read = wanted_of(range, fft, frames);
            &&& read.start <= range.start && range.end <= read.end <= frames
            &&& range.start - read.start <= fft / 2 && read.end - range.end <= fft / 2
            &&& read.start > 0 ==> range.start - read.start == fft / 2
            &&& read.end < frames ==> read.end - range.end == fft / 2
        }),
{
}

/// A stretch ends with its column, with the frames, or where enough are worked
/// on in one go, whichever is first, and has at least one frame.
pub proof fn a_stretch_stays_in_its_column(at: usize, next: usize, to: usize)
    requires
        at < to,
    ensures
        at < stretch_of(at, next, to) <= to,
        stretch_of(at, next, to) - at <= STRETCH,
        next > at ==> stretch_of(at, next, to) <= next,
        next <= at ==> stretch_of(at, next, to) == at + 1,
        at < next <= to && next - at <= STRETCH ==> stretch_of(at, next, to) == next,
{
}

/// A spectrum reads the frames around its own, as many on either side as the
/// file has of its extent, and knows where its own is among them.
pub proof fn a_spectrum_reads_around_its_frame(request: Request, frames: usize)
    requires
        probe_extent_of(request.fft) + frames <= usize::MAX,
    ensures
        ({
            let (read, at) = reads_of(request, frames);
            let centre = read.start + at;
            let extent = probe_extent_of(request.fft);
            &&& request.frame <= frames ==> centre == request.frame
            &&& request.frame > frames ==> centre == frames
            &&& read.start <= centre <= read.end <= frames
            &&& read.start > 0 ==> at == extent
            &&& read.end < frames ==> read.end - centre == extent
            &&& at <= extent && read.end - centre <= extent
        }),
{
}

/// Levels are taken fifty times a second, or for every frame where that is
/// less than one.
pub proof fn levels_are_taken_fifty_times_a_second(sample_rate: u32)
    ensures
        block_of(sample_rate) >= 1,
        sample_rate >= 50 ==> 50 * block_of(sample_rate) <= sample_rate < 50 * (block_of(
            sample_rate,
        ) + 1),
        sample_rate < 50 ==> block_of(sample_rate) == 1,
{
}

/// The blocks for a meter end with the one that holds the frame, or with the
/// last there is, and go back over as much as the span has whole blocks.
pub proof fn a_meter_ends_at_its_frame(frame: usize, span: usize, block: usize, blocks: nat)
    requires
        block > 0,
        blocks > 0,
    ensures
        ({
            let (first, last) = blocks_of(frame, span, block, blocks);
            &&& 0 <= first <= last < blocks
            &&& frame < blocks * block ==> last * block <= frame < (last + 1) * block
            &&& frame >= blocks * block ==> last == blocks - 1
            &&& first > 0 && span >= block ==> (last - first + 1) * block <= span < (last - first
                + 2) * block
            &&& span < block ==> first == last
        }),
{
    let (f, b, s, n) = (frame as int, block as int, span as int, blocks as int);
    let q = f / b;
    assert(q * b <= f < (q + 1) * b && q >= 0) by (nonlinear_arith)
        requires
            q == f / b,
            b > 0,
            f >= 0,
    ;
    assert(f < n * b <==> q < n) by (nonlinear_arith)
        requires
            q * b <= f < (q + 1) * b,
            b > 0,
    ;
    let m = s / b;
    assert(m * b <= s < (m + 1) * b && (s >= b ==> m >= 1) && (s < b ==> m == 0)) by (nonlinear_arith)
        requires
            m == s / b,
            b > 0,
            s >= 0,
    ;
}

/// What is taken of a channel is its own, block by block, from the first to the
/// last that there is.
pub proof fn a_channel_has_its_own_levels<T>(
    stats: Seq<T>,
    channels: int,
    channel: int,
    b: int,
    last: int,
    k: int,
)
    requires
        0 <= b,
        0 <= channel < channels,
        b <= last + 1,
        (last + 1) * channels <= stats.len(),
        0 <= k < last + 1 - b,
    ensures
        channel_stats(stats, channels, channel, b, last).len() == last + 1 - b,
        channel_stats(stats, channels, channel, b, last)[k] == stats[(b + k) * channels + channel],
    decreases last + 1 - b,
{
    assert(b * channels + channel < (last + 1) * channels) by (nonlinear_arith)
        requires
            b <= last,
            0 <= channel < channels,
    ;
    if b < last {
        let rest = channel_stats(stats, channels, channel, b + 1, last);
        if k > 0 {
            a_channel_has_its_own_levels(stats, channels, channel, b + 1, last, k - 1);
        } else {
            a_channel_has_its_own_levels(stats, channels, channel, b + 1, last, 0);
        }
    } else {
        assert(channel_stats(stats, channels, channel, b + 1, last).len() == 0);
    }
}

/// Of several restarts only the last is acted on, and nothing is once playback
/// is to end.
pub proof fn the_last_restart_is_acted_on(
    before: Seq<Command>,
    r: Restart,
    wakes: nat,
    after: Seq<Command>,
)
    ensures
        gathered(before) is Some ==> gathered(
            before.push(Command::Restart(r)) + Seq::new(wakes, |i: int| Command::Wake),
        ) == Some(Some(r)),
        gathered(Seq::new(wakes, |i: int| Command::Wake)) == Some(None::<Restart>),
        gathered(before.push(Command::Quit) + after) is None,
    decreases wakes + after.len(),
{
    let w = Seq::new(wakes, |i: int| Command::Wake);
    let s = before.push(Command::Restart(r)) + w;
    if wakes > 0 {
        let less = Seq::new((wakes - 1) as nat, |i: int| Command::Wake);
        the_last_restart_is_acted_on(before, r, (wakes - 1) as nat, after);
        assert(s.drop_last() =~= before.push(Command::Restart(r)) + less);
        assert(s.last() == Command::Wake);
        assert(w.drop_last() =~= less);
    } else {
        assert(s =~= before.push(Command::Restart(r)));
        assert(s.drop_last() =~= before);
        let q = before.push(Command::Quit) + after;
        if after.len() > 0 {
            the_last_restart_is_acted_on(before, r, 0, after.drop_last());
            assert(q.drop_last() =~= before.push(Command::Quit) + after.drop_last());
        } else {
            assert(q =~= before.push(Command::Quit));
            assert(q.drop_last() =~= before);
        }
    }
}

/// A loop goes frame by frame and from its last frame to its first.
pub proof fn a_loop_goes_round(r: Span, next: int, i: int)
    requires
        r.start < r.end,
        r.start <= next,
        0 <= i,
    ensures
        r.start <= next < r.end ==> round(r, next, 0) == next,
        next >= r.end ==> round(r, next, 0) == r.start,
        round(r, next, i + 1) == if round(r, next, i) == r.end - 1 {
            r.start as int
        } else {
            round(r, next, i) + 1
        },
{
    let from = if next >= r.end {
        r.start as int
    } else {
        next
    };
    let len = r.end - r.start;
    let m = from + i - r.end;
    if m >= 0 {
        let q = m / len;
        let k = m % len;
        assert(m == q * len + k && 0 <= k < len) by (nonlinear_arith)
            requires
                q == m / len,
                k == m % len,
                len > 0,
        ;
        if k + 1 < len {
            assert((m + 1) % len == k + 1) by (nonlinear_arith)
                requires
                    m == q * len + k,
                    0 <= k,
                    k + 1 < len,
            ;
        } else {
            assert(m + 1 == (q + 1) * len) by (nonlinear_arith)
                requires
                    m == q * len + k,
                    k + 1 == len,
            ;
            assert(((q + 1) * len) % len == 0) by (nonlinear_arith)
                requires
                    len > 0,
            ;
        }
    } else if m == -1 {
        assert(0int % len == 0) by (nonlinear_arith)
            requires
                len > 0,
        ;
    }
}

/// A range to repeat is cut to the file, and one that has nothing in it is
/// none; where playback goes on from is the start of the range.
pub proof fn a_range_to_repeat_is_in_the_file(t: Transport, r: Span, position: usize)
    ensures
        t.cut_to_file(Some(r)) matches Some(c) ==> {
            &&& c.start < c.end <= t.frames
            &&& c.start == r.start
            &&& c.end == r.end || (c.end == t.frames && t.frames < r.end)
        },
        t.cut_to_file(Some(r)) is None <==> r.start >= r.end || r.start >= t.frames,
        t.cut_to_file(None) is None,
        t.cut_to_file(Some(r)) is Some ==> t.repeating(Some(r), position).target == r.start,
        position <= t.frames ==> t.repeating(None, position).target == position,
        t.repeating(Some(r), position).looping == t.cut_to_file(Some(r)),
        t.repeating(Some(r), position).frames == t.frames,
{
}

/// No two seeks that follow each other are numbered alike.
pub proof fn each_seek_has_its_own_number(t: Transport, a: usize, b: usize)
    ensures
        t.sent(a).seeks != t.seeks,
        t.sent(a).sent(b).seeks != t.sent(a).seeks,
        t.sent(a).frames == t.frames,
        t.sent(a).looping == t.looping,
{
}

/// A reel that gives some frames and then more gives the frames it would have
/// given at once.
pub proof fn a_reel_goes_on_where_it_stopped(reel: Reel, next: Reel, count: int, i: int)
    requires
        reel.wf(),
        0 < count,
        0 <= i,
        reel.looping is None ==> reel.next + count <= usize::MAX,
        reel.looping matches Some(r) ==> r.start <= reel.next,
        next.looping == reel.looping,
        next.next == reel.after(count),
    ensures
        (next.source())(i) == (reel.source())(count + i),
{
    if let Some(r) = reel.looping {
        let s = round(r, reel.next as int, count - 1);
        a_loop_goes_round(r, reel.next as int, count - 1);
        crate::playback::a_loop_never_leaves_its_range(r, reel.next as int, count - 1);
        lemma_goes_on(r, reel.next as int, count, s + 1, i);
    }
}

proof fn lemma_goes_on(r: Span, next: int, count: int, after: int, i: int)
    requires
        r.start < r.end,
        r.start <= next,
        0 < count,
        0 <= i,
        after == round(r, next, count - 1) + 1,
        r.start < after <= r.end,
    ensures
        round(r, after, i) == round(r, next, count + i),
    decreases i,
{
    if i == 0 {
        a_loop_goes_round(r, next, count - 1);
        a_loop_goes_round(r, after, 0);
    } else {
        lemma_goes_on(r, next, count, after, i - 1);
        a_loop_goes_round(r, next, count + i - 1);
        a_loop_goes_round(r, after, i - 1);
    }
}

/// Playback gives as many frames as are asked for, up to the end of the file;
/// in a loop there is no end.
pub proof fn playback_ends_with_the_file(reel: Reel, count: int)
    requires
        reel.wf(),
        0 <= count,
    ensures
        0 <= reel.available(count) <= count,
        reel.looping is Some ==> reel.available(count) == count,
        reel.looping is None && reel.next + count <= reel.frames ==> reel.available(count) == count,
        reel.looping is None && reel.next <= reel.frames < reel.next + count ==> reel.next
            + reel.available(count) == reel.frames,
        reel.looping is None && reel.next >= reel.frames ==> reel.available(count) == 0,
        reel.looping is None ==> (reel.source())(0) == reel.next,
{
}

/// What a file is called by its extension, in capitals.
pub proof fn a_container_is_named_by_its_extension(dir: Seq<char>, stem: Seq<char>, ext: Seq<char>)
    requires
        !stem.contains('/'),
        stem.len() > 0,
        !ext.contains('/'),
        !ext.contains('.'),
    ensures
        container_of(dir + seq!['/'] + stem + seq!['.'] + ext) == uppered(ext),
        container_of(dir + seq!['/'] + ext) == "audio"@,
{
    an_extension_follows_the_last_dot(dir, stem, ext);
}

/// Each fact of a file is on its own row, under its own name.
pub proof fn each_fact_is_on_its_own_row(
    path: Seq<char>,
    info: InfoView,
    size: Seq<char>,
    seconds: Seq<char>,
    windows: bool,
)
    ensures
        ({
            let rows = file_rows_of(path, info, size, seconds, windows);
            &&& rows.contains(("Name"@, file_name_of(path)))
            &&& parent_of(path, windows) matches Some(dir) ==> rows.contains(("Folder"@, dir))
            &&& rows.contains(("Size"@, size + " MB"@))
            &&& rows.contains(("Sample rate"@, digits_of(info.sample_rate as nat) + " Hz"@))
            &&& rows.contains(("Channels"@, digits_of(info.channels as nat)))
            &&& rows.contains(
                ("Length"@, seconds + " s, "@ + digits_of(info.frames as nat) + " frames"@),
            )
            &&& info.bits matches Some(b) ==> rows.contains(
                ("Format"@, info.container + (", "@ + digits_of(b as nat) + "-bit"@)),
            )
            &&& info.bits is None ==> rows.contains(("Format"@, info.container))
        }),
{
    let rows = file_rows_of(path, info, size, seconds, windows);
    assert(rows[0].0 == "Name"@ && rows[1].0 == "Folder"@ && rows[2].0 == "Size"@);
    assert(rows.contains(rows[0]) && rows.contains(rows[1]) && rows.contains(rows[2])
        && rows.contains(rows[3]) && rows.contains(rows[4]) && rows.contains(rows[5])
        && rows.contains(rows[6]));
    if info.bits is None {
        assert(info.container + Seq::<char>::empty() =~= info.container);
    }
}

/// A point of the timeline shows the columns that its share of the picture
/// touches, and no others.
pub proof fn a_point_shows_its_share(p: int, points: int, columns: int)
    requires
        0 <= p < points,
        columns > 0,
    ensures
        ({
            let (first, upto) = columns_at(p, points, columns);
            &&& 0 <= first < upto <= columns
            &&& first * points <= p * columns < (first + 1) * points
            &&& (upto - 1) * points < (p + 1) * columns <= upto * points
        }),
{
    let a = p * columns;
    let b = (p + 1) * columns;
    let first = a / points;
    let upto = (b + points - 1) / points;
    assert(b == a + columns && 0 <= a && b <= points * columns) by (nonlinear_arith)
        requires
            a == p * columns,
            b == (p + 1) * columns,
            0 <= p < points,
            columns > 0,
    ;
    assert(first * points <= a < (first + 1) * points && 0 <= first) by (nonlinear_arith)
        requires
            first == a / points,
            points > 0,
            0 <= a,
    ;
    assert((upto - 1) * points < b <= upto * points) by (nonlinear_arith)
        requires
            upto == (b + points - 1) / points,
            points > 0,
    ;
    assert(first < columns) by (nonlinear_arith)
        requires
            first * points <= a,
            a < b,
            b <= points * columns,
            points > 0,
    ;
    assert(upto <= columns) by (nonlinear_arith)
        requires
            (upto - 1) * points < b,
            b <= points * columns,
            points > 0,
    ;
    assert(first + 1 <= upto) by (nonlinear_arith)
        requires
            first * points <= a,
            a < b,
            b <= upto * points,
            points > 0,
    ;
}

/// Playback that is sent to a frame goes there, or to the end of the file where
/// that is past it, or to the start of a loop whose end it is past.
pub proof fn playback_goes_where_it_is_sent(t: Transport, frame: usize)
    ensures
        t.looping is None && frame <= t.frames ==> t.sent(frame).target == frame,
        t.looping is None && frame > t.frames ==> t.sent(frame).target == t.frames,
        t.looping matches Some(r) ==> {
            &&& frame < r.end && frame <= t.frames ==> t.sent(frame).target == frame
            &&& frame >= r.end ==> t.sent(frame).target == r.start
        },
        t.order().frame == t.target && t.order().seek == t.seeks && t.order().looping == t.looping,
{
}

/// Once a seek is acted on, playback is at the frame that is heard, and at the
/// end of the file once that was.
pub proof fn playback_is_at_what_is_heard(t: Transport, other: Transport, frame: u64, mark: u32)
    requires
        frame < FRAME_LIMIT,
    ensures
        !t.is_finished(mark) && frame <= t.frames ==> t.place(mark, packed_of(t.seeks, frame))
            == frame,
        t.is_finished(mark) ==> t.place(mark, packed_of(t.seeks, frame)) == t.frames,
        t.is_finished(mark) && other.is_finished(mark) ==> t.seeks == other.seeks,
        !t.is_finished(0),
{
    positions_unpack_as_packed(t.seeks, frame);
}

/// Blocks are rendered while there is room for one and something left to hear;
/// otherwise the feeder waits, and only against the clock while playing.
pub proof fn blocks_are_rendered_while_there_is_room(
    f: Feeder,
    room: usize,
    block: usize,
    capacity: usize,
    playing: bool,
)
    ensures
        f.does(room, block, capacity, playing) == Act::Render <==> !f.drained && room >= block,
        f.does(room, block, capacity, playing) matches Act::Wait { finished, timed } ==> {
            &&& timed == playing
            &&& finished is Some <==> f.drained && room == capacity
        },
{
}

/// A tick is in the frame that is sounding at it, and a frame is sought at the
/// last tick that is not past it.
pub proof fn ticks_and_frames_go_together(t: Timeline, ts: i64, frame: usize)
    requires
        t.wf(),
    ensures
        ts >= t.start && (ts - t.start) * t.per < usize::MAX * t.ticks ==> t.frame_at(ts) * t.ticks
            <= (ts - t.start) * t.per < (t.frame_at(ts) + 1) * t.ticks,
        t.tick_at(frame) < i64::MAX ==> (t.tick_at(frame) - t.start) * t.per <= frame * t.ticks < (
        t.tick_at(frame) - t.start + 1) * t.per,
        ts <= t.start ==> t.frame_at(ts) == 0,
{
    let (p, k) = (t.per as int, t.ticks as int);
    if ts > t.start {
        let a = (ts - t.start) * p;
        let q = a / k;
        assert(0 <= a) by (nonlinear_arith)
            requires
                a == (ts - t.start) * p,
                ts > t.start,
                p > 0,
        ;
        assert(q * k <= a < (q + 1) * k) by (nonlinear_arith)
            requires
                q == a / k,
                k > 0,
        ;
        if a < usize::MAX * k {
            assert(q <= usize::MAX) by (nonlinear_arith)
                requires
                    q * k <= a,
                    a < usize::MAX * k,
                    k > 0,
            ;
        }
    } else if ts == t.start {
        assert((ts - t.start) * t.per == 0) by (nonlinear_arith)
            requires
                ts == t.start,
        ;
        assert(0 * t.ticks == 0 && (0 + 1) * t.ticks == t.ticks) by (nonlinear_arith);
    }
    let b = frame * k;
    let e = b / p;
    assert(e * p <= b < (e + 1) * p) by (nonlinear_arith)
        requires
            e == b / p,
            p > 0,
    ;
}

} // verus!
