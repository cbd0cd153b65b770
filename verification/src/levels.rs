//! Where a file's levels are kept: one peak and mean square for each block
//! and channel, and which of them a meter at a frame looks at.

use vstd::prelude::*;

verus! {

/// Levels of a whole file: `stats` holds what was worked out of each block,
/// block after block, channel after channel within a block.
#[derive(Debug)]
pub struct Levels<T> {
    /// Frames per block.
    pub block: usize,
    pub channels: usize,
    pub stats: Vec<T>,
}

/// Blocks of 20 ms, the rate the meters redraw at.
pub open spec fn block_of(sample_rate: u32) -> int {
    if sample_rate / 50 == 0 {
        1
    } else {
        (sample_rate / 50) as int
    }
}

/// The blocks that a level over `span` frames ending at `frame` looks at,
/// first and last, of `blocks` there are.
pub open spec fn blocks_of(frame: usize, span: usize, block: usize, blocks: nat) -> (int, int) {
    let last = if frame as nat / block as nat >= blocks {
        if blocks == 0 {
            0
        } else {
            blocks - 1
        }
    } else {
        (frame as nat / block as nat) as int
    };
    let many = if span as nat / block as nat == 0 {
        1
    } else {
        (span as nat / block as nat) as int
    };
    (
        if last >= many - 1 {
            last - (many - 1)
        } else {
            0
        },
        last,
    )
}

/// What was worked out of one channel in the blocks from `b` up to and with
/// `last`, as far as there are any.
pub open spec fn channel_stats<T>(
    stats: Seq<T>,
    channels: int,
    channel: int,
    b: int,
    last: int,
) -> Seq<T>
    decreases last - b + 1,
{
    if b > last || b * channels + channel >= stats.len() {
        Seq::empty()
    } else {
        seq![stats[b * channels + channel]] + channel_stats(stats, channels, channel, b + 1, last)
    }
}

impl<T: Copy> Levels<T> {
    pub fn new(sample_rate: u32, channels: usize) -> (r: Levels<T>)
        ensures
            r.block == block_of(sample_rate),
            r.block > 0,
            r.channels == channels,
            r.stats@.len() == 0,
    {
        let n: usize = (sample_rate / 50) as usize;
        let block: usize = if n == 0 {
            1
        } else {
            n
        };
        Levels { block, channels, stats: Vec::new() }
    }

    /// What was worked out of blocks, in order.
    pub fn push(&mut self, stats: &[T])
        ensures
            final(self).stats@ == old(self).stats@ + stats@,
            final(self).block == old(self).block,
            final(self).channels == old(self).channels,
    {
        let ghost before = self.stats@;
        let mut i: usize = 0;
        assert(before + stats@.take(0) =~= before);
        while i < stats.len()
            invariant
                i <= stats@.len(),
                self.block == old(self).block,
                self.channels == old(self).channels,
                self.stats@ == before + stats@.take(i as int),
            decreases stats@.len() - i,
        {
            self.stats.push(stats[i]);
            i = i + 1;
            assert(self.stats@ =~= before + stats@.take(i as int));
        }
        assert(stats@.take(i as int) =~= stats@);
    }

    /// The blocks that a level over `span` frames ending at `frame` looks
    /// at, first and last.
    pub fn blocks_at(&self, frame: usize, span: usize) -> (r: (usize, usize))
        requires
            self.block > 0,
        ensures
            (r.0 as int, r.1 as int) == blocks_of(
                frame,
                span,
                self.block,
                if self.channels == 0 {
                    self.stats@.len()
                } else {
                    self.stats@.len() / self.channels as nat
                },
            ),
            r.0 <= r.1,
    {
        let blocks: usize = if self.channels == 0 {
            self.stats.len()
        } else {
            self.stats.len() / self.channels
        };
        let at: usize = frame / self.block;
        let last: usize = if at >= blocks {
            if blocks == 0 {
                0
            } else {
                blocks - 1
            }
        } else {
            at
        };
        let n: usize = span / self.block;
        let many: usize = if n == 0 {
            1
        } else {
            n
        };
        let first: usize = if last >= many - 1 {
            last - (many - 1)
        } else {
            0
        };
        (first, last)
    }

    /// What was worked out of a channel in the blocks from `first` up to and
    /// with `last`, as far as there are any.
    pub fn of_channel(&self, channel: usize, first: usize, last: usize) -> (r: Vec<T>)
        requires
            channel < self.channels,
        ensures
            r@ == channel_stats(
                self.stats@,
                self.channels as int,
                channel as int,
                first as int,
                last as int,
            ),
    {
        let mut out: Vec<T> = Vec::new();
        let len: usize = self.stats.len();
        let blocks: usize = len / self.channels;
        let mut b: usize = first;
        let ghost all = channel_stats(
            self.stats@,
            self.channels as int,
            channel as int,
            first as int,
            last as int,
        );
        assert(out@ + all =~= all);
        while b <= last
            invariant_except_break
                all == out@ + channel_stats(
                    self.stats@,
                    self.channels as int,
                    channel as int,
                    b as int,
                    last as int,
                ),
            invariant
                len == self.stats@.len(),
                channel < self.channels,
                blocks == len / self.channels,
            ensures
                all =~= out@,
            decreases last + 1 - b,
        {
            if b > blocks {
                proof {
                    assert(b * self.channels >= len) by (nonlinear_arith)
                        requires
                            b > blocks,
                            blocks == len as int / self.channels as int,
                            self.channels > 0,
                    ;
                    assert(all =~= out@);
                }
                break;
            }
            proof {
                assert(0 <= b * self.channels <= len) by (nonlinear_arith)
                    requires
                        0 <= b <= blocks,
                        blocks == len as int / self.channels as int,
                        self.channels > 0,
                ;
            }
            let at: usize = b * self.channels;
            if channel >= len - at {
                assert(all =~= out@);
                break;
            }
            let ghost before = out@;
            out.push(self.stats[at + channel]);
            assert(out@ + channel_stats(
                self.stats@,
                self.channels as int,
                channel as int,
                b + 1,
                last as int,
            ) =~= before + channel_stats(
                self.stats@,
                self.channels as int,
                channel as int,
                b as int,
                last as int,
            ));
            if b == last {
                assert(all =~= out@);
                break;
            }
            b = b + 1;
        }
        out
    }
}

} // verus!
