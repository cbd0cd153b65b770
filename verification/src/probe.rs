//! The spectrum at the cursor: what is asked for, and which frames that
//! reads. It is worked out apart from the window, which only ever wants the
//! newest.

use crate::spectrogram::{probe_extent, probe_extent_of, Channels, Frames};
use crate::wav::least;
use vstd::prelude::*;

verus! {

#[derive(Debug, Clone, Copy, PartialEq, Eq, Structural)]
pub struct Request {
    pub frame: usize,
    pub fft: usize,
    pub channels: Channels,
}

/// What is asked for and not yet started.
#[derive(Debug, Clone, Copy, PartialEq, Eq, Structural)]
pub struct Desk {
    pub wanted: Option<Request>,
    pub quit: bool,
}

/// What the worker does next.
#[derive(Debug, Clone, Copy, PartialEq, Eq, Structural)]
pub enum Job {
    Quit,
    Work(Request),
    Wait,
}

impl Desk {
    pub open spec fn asked(self, request: Request) -> Desk {
        Desk { wanted: Some(request), ..self }
    }

    pub open spec fn job(self) -> Job {
        if self.quit {
            Job::Quit
        } else {
            match self.wanted {
                Some(request) => Job::Work(request),
                None => Job::Wait,
            }
        }
    }

    pub fn new() -> (r: Desk)
        ensures
            r == (Desk { wanted: None, quit: false }),
    {
        Desk { wanted: None, quit: false }
    }

    /// Replaces whatever was asked before and not yet started.
    pub fn ask(&mut self, request: Request)
        ensures
            *final(self) == old(self).asked(request),
    {
        self.wanted = Some(request);
    }

    /// The worker is to finish what it is on, then stop.
    pub fn close(&mut self)
        ensures
            *final(self) == (Desk { quit: true, ..*old(self) }),
    {
        self.quit = true;
    }

    /// What the worker does next, which is then no longer waiting.
    pub fn next(&mut self) -> (r: Job)
        ensures
            r == old(self).job(),
            *final(self) == if r is Work {
                Desk { wanted: None, ..*old(self) }
            } else {
                *old(self)
            },
    {
        if self.quit {
            return Job::Quit;
        }
        match self.wanted {
            Some(request) => {
                self.wanted = None;
                Job::Work(request)
            },
            None => Job::Wait,
        }
    }
}

/// Of requests that come before the worker looks, the last is the one it
/// works on.
pub proof fn the_last_request_wins(d: Desk, first: Request, last: Request)
    ensures
        d.asked(first).asked(last) == d.asked(last),
        !d.quit ==> d.asked(last).job() == Job::Work(last),
{
}

/// The frames that a spectrum reads, and its centre among them.
pub open spec fn reads_of(request: Request, frames: usize) -> (Frames, int) {
    let centre = least(request.frame as int, frames as int);
    let extent = probe_extent_of(request.fft);
    let first = if centre >= extent {
        centre - extent
    } else {
        0
    };
    (
        Frames { start: first as usize, end: least(centre + extent, frames as int) as usize },
        centre - first,
    )
}

/// The frames that a spectrum reads, and its centre among them.
pub fn reads(request: Request, frames: usize) -> (r: (Frames, usize))
    requires
        request.fft <= usize::MAX / 8,
    ensures
        (r.0, r.1 as int) == reads_of(request, frames),
        r.0.start <= r.0.end <= frames,
        r.0.start + r.1 <= r.0.end,
{
    let extent: usize = probe_extent(request.fft);
    let centre: usize = if request.frame < frames {
        request.frame
    } else {
        frames
    };
    let first: usize = if centre >= extent {
        centre - extent
    } else {
        0
    };
    let end: usize = if frames - centre <= extent {
        frames
    } else {
        centre + extent
    };
    (Frames { start: first, end }, centre - first)
}

} // verus!
