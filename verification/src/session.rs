//! What the window is about: the file that is loading or loaded, the work
//! under way on it, and what waits until unsaved changes are saved or let
//! go. Work is done apart from the window; each piece of it carries a number,
//! so what arrives late for something the window has moved on from is
//! dropped.

use crate::edit::{highest_id, Edits, EditsView};
use crate::path::{extension, extension_of, file_name, file_name_of};
use crate::playback::Span;
use crate::spectrogram::{Target, FFT_SIZES};
use crate::text::{chars, decimal, digits_of, extend, same, string, trim, trim_of};
use crate::wav::{least, marks, sort_markers, sort_marks, text_view, Marker, MarkerView};
use vstd::prelude::*;

verus! {

/// What waits until unsaved changes are saved or let go.
#[derive(Debug, PartialEq)]
pub enum After {
    Open(String),
    Quit,
}

#[verifier::ext_equal]
pub enum AfterView {
    Open(Seq<char>),
    Quit,
}

impl View for After {
    type V = AfterView;

    open spec fn view(&self) -> AfterView {
        match self {
            After::Open(p) => AfterView::Open(p@),
            After::Quit => AfterView::Quit,
        }
    }
}

pub open spec fn after_view(t: Option<After>) -> Option<AfterView> {
    match t {
        Some(t) => Some(t@),
        None => None,
    }
}

/// What the window does next.
#[derive(Debug, PartialEq)]
pub enum Effect {
    Nothing,
    /// The file now named is to be loaded.
    Load,
    /// The window is to close.
    Close,
}

/// What is answered when unsaved changes are asked about.
#[derive(Debug, Clone, Copy, PartialEq, Eq, Structural)]
pub enum Answer {
    Save,
    Discard,
    Cancel,
}

/// Which analysis a result is of.
#[derive(Debug, Clone, Copy, PartialEq, Eq, Structural)]
pub enum Slot {
    Whole,
    Detail,
    /// One that a newer file or a newer analysis has taken the place of.
    Stale,
}

/// The window's file and the work under way on it.
#[derive(Debug)]
pub struct Session {
    /// Bumped for every opened file, so results for an earlier one are
    /// dropped.
    pub generation: u64,
    /// Analyses started so far.
    pub jobs: u64,
    /// The file the window is about: loading, loaded or failed to load.
    pub file: Option<String>,
    pub loading: bool,
    /// Frames in the file once it has loaded.
    pub frames: Option<usize>,
    pub error: Option<String>,
    /// The analyses of the whole file and of the part in view under way.
    pub whole_job: Option<u64>,
    pub detail_job: Option<u64>,
    pub selection: Option<Span>,
    /// The frame the spectrum describes, and where playback starts.
    pub cursor: Option<usize>,
    /// Play the file loading once it has loaded, as the one before was
    /// playing when it was left.
    pub play_when_loaded: bool,
    pub saving: bool,
    /// Why the last save did not happen, shown until the next one.
    pub save_error: Option<String>,
    /// Asking whether to save before this goes ahead.
    pub asking: Option<After>,
    /// Going ahead once the save under way is done.
    pub waiting: Option<After>,
    pub quitting: bool,
}

#[verifier::ext_equal]
pub struct SessionView {
    pub generation: u64,
    pub jobs: u64,
    pub file: Option<Seq<char>>,
    pub loading: bool,
    pub frames: Option<usize>,
    pub error: Option<Seq<char>>,
    pub whole_job: Option<u64>,
    pub detail_job: Option<u64>,
    pub selection: Option<Span>,
    pub cursor: Option<usize>,
    pub play_when_loaded: bool,
    pub saving: bool,
    pub save_error: Option<Seq<char>>,
    pub asking: Option<AfterView>,
    pub waiting: Option<AfterView>,
    pub quitting: bool,
}

impl View for Session {
    type V = SessionView;

    open spec fn view(&self) -> SessionView {
        SessionView {
            generation: self.generation,
            jobs: self.jobs,
            file: text_view(self.file),
            loading: self.loading,
            frames: self.frames,
            error: text_view(self.error),
            whole_job: self.whole_job,
            detail_job: self.detail_job,
            selection: self.selection,
            cursor: self.cursor,
            play_when_loaded: self.play_when_loaded,
            saving: self.saving,
            save_error: text_view(self.save_error),
            asking: after_view(self.asking),
            waiting: after_view(self.waiting),
            quitting: self.quitting,
        }
    }
}

impl SessionView {
    /// Where playback starts: at the cursor, or at the start when it sits at
    /// the end; nowhere in a file that holds nothing.
    pub open spec fn plays_from(self) -> Option<usize> {
        match self.frames {
            Some(n) => if n == 0 {
                None
            } else {
                match self.cursor {
                    Some(c) => if c < n {
                        Some(c)
                    } else {
                        Some(0usize)
                    },
                    None => Some(0usize),
                }
            },
            None => None,
        }
    }

    /// Where playback goes back to: the start of the selection when there is
    /// one, else of the file.
    pub open spec fn home(self) -> usize {
        match self.selection {
            Some(s) => s.start,
            None => 0,
        }
    }

    /// Playback is back at the start.
    pub open spec fn stopped(self) -> SessionView {
        if self.frames is Some {
            SessionView { cursor: Some(self.home()), ..self }
        } else {
            self
        }
    }

    /// `selection` is the selection, and playback goes to the start of a new
    /// one.
    pub open spec fn selected(self, selection: Option<Span>) -> SessionView {
        SessionView {
            selection,
            cursor: match selection {
                Some(s) => Some(s.start),
                None => self.cursor,
            },
            ..self
        }
    }

    /// Playing was asked for, or not any more.
    pub open spec fn toggled_while_loading(self) -> SessionView {
        if self.frames is None && self.loading {
            SessionView { play_when_loaded: !self.play_when_loaded, ..self }
        } else {
            self
        }
    }

    pub open spec fn empty() -> SessionView {
        SessionView {
            generation: 0,
            jobs: 0,
            file: None,
            loading: false,
            frames: None,
            error: None,
            whole_job: None,
            detail_job: None,
            selection: None,
            cursor: None,
            play_when_loaded: false,
            saving: false,
            save_error: None,
            asking: None,
            waiting: None,
            quitting: false,
        }
    }

    /// The window with `path` loading, where the file before it was
    /// `playing` or not.
    pub open spec fn opened(self, path: Seq<char>, playing: bool) -> SessionView {
        SessionView {
            generation: (self.generation + 1) as u64,
            file: Some(path),
            loading: true,
            frames: None,
            error: None,
            whole_job: None,
            detail_job: None,
            selection: None,
            cursor: None,
            play_when_loaded: self.play_when_loaded || playing,
            save_error: None,
            ..self
        }
    }

    /// Opening `path`, once unsaved changes to the file open now are saved
    /// or let go; `dirty` says whether there are any.
    pub open spec fn asked_to_open(
        self,
        path: Seq<char>,
        dirty: bool,
        playing: bool,
    ) -> SessionView {
        if self.saving {
            SessionView { waiting: Some(AfterView::Open(path)), ..self }
        } else if dirty {
            SessionView { asking: Some(AfterView::Open(path)), ..self }
        } else {
            self.opened(path, playing)
        }
    }

    /// Closing the window, once unsaved changes are saved or let go.
    pub open spec fn asked_to_quit(self, dirty: bool) -> SessionView {
        if self.saving {
            SessionView { waiting: Some(AfterView::Quit), ..self }
        } else if dirty {
            SessionView { asking: Some(AfterView::Quit), ..self }
        } else {
            SessionView { quitting: true, ..self }
        }
    }

    /// Whatever was waiting on the save, if it left nothing unsaved.
    pub open spec fn gone_ahead(self, dirty: bool, playing: bool) -> SessionView {
        let free = SessionView { waiting: None, ..self };
        match self.waiting {
            Some(AfterView::Open(path)) => if dirty {
                free
            } else {
                free.opened(path, playing)
            },
            Some(AfterView::Quit) => if dirty {
                free
            } else {
                free.asked_to_quit(false)
            },
            None => free,
        }
    }

    /// A file has been read, or was not because of `failed`; one that is no
    /// longer wanted is dropped.
    pub open spec fn loaded(
        self,
        generation: u64,
        frames: usize,
        failed: Option<Seq<char>>,
    ) -> SessionView {
        if generation != self.generation {
            self
        } else {
            match failed {
                None => SessionView {
                    loading: false,
                    frames: Some(frames),
                    play_when_loaded: false,
                    ..self
                },
                Some(why) => SessionView {
                    loading: false,
                    error: Some(why),
                    play_when_loaded: false,
                    ..self
                },
            }
        }
    }

    /// An analysis of the whole file or of the part in view is under way, in
    /// place of any of the same kind.
    pub open spec fn analysing(self, whole: bool) -> SessionView {
        let id = (self.jobs + 1) as u64;
        if whole {
            SessionView { jobs: id, whole_job: Some(id), ..self }
        } else {
            SessionView { jobs: id, detail_job: Some(id), ..self }
        }
    }

    /// Which analysis a result is of.
    pub open spec fn slot(self, generation: u64, id: u64) -> Slot {
        if generation != self.generation {
            Slot::Stale
        } else if self.whole_job == Some(id) {
            Slot::Whole
        } else if self.detail_job == Some(id) {
            Slot::Detail
        } else {
            Slot::Stale
        }
    }

    /// The window after a result.
    pub open spec fn analysed(
        self,
        generation: u64,
        id: u64,
        failed: Option<Seq<char>>,
    ) -> SessionView {
        let done = match self.slot(generation, id) {
            Slot::Stale => self,
            Slot::Whole => SessionView { whole_job: None, ..self },
            Slot::Detail => SessionView { detail_job: None, ..self },
        };
        match failed {
            Some(why) => if self.slot(generation, id) == Slot::Stale {
                done
            } else {
                SessionView { error: Some(why), ..done }
            },
            None => done,
        }
    }

    /// The window after a save, which may have `failed`.
    pub open spec fn saved(self, generation: u64, failed: Option<Seq<char>>) -> SessionView {
        if generation != self.generation {
            self
        } else {
            match failed {
                None => SessionView { saving: false, ..self },
                Some(why) => SessionView {
                    saving: false,
                    save_error: Some("Not saved: "@ + why),
                    waiting: None,
                    ..self
                },
            }
        }
    }

    /// The window after an answer about unsaved changes: what waited goes on
    /// waiting for the save, or goes ahead at once.
    pub open spec fn answered(self, answer: Answer) -> SessionView {
        match answer {
            Answer::Cancel => SessionView { asking: None, ..self },
            _ => SessionView { asking: None, waiting: self.asking, ..self },
        }
    }
}

impl Default for Session {
    fn default() -> (r: Self)
        ensures
            r@ == SessionView::empty(),
    {
        Session {
            generation: 0,
            jobs: 0,
            file: None,
            loading: false,
            frames: None,
            error: None,
            whole_job: None,
            detail_job: None,
            selection: None,
            cursor: None,
            play_when_loaded: false,
            saving: false,
            save_error: None,
            asking: None,
            waiting: None,
            quitting: false,
        }
    }
}

impl Session {
    fn open(&mut self, path: &str, playing: bool)
        requires
            old(self).generation < u64::MAX,
        ensures
            final(self)@ == old(self)@.opened(path@, playing),
    {
        self.generation = self.generation + 1;
        self.file = Some(path.to_owned());
        self.loading = true;
        self.frames = None;
        self.error = None;
        self.whole_job = None;
        self.detail_job = None;
        self.selection = None;
        self.cursor = None;
        self.play_when_loaded = self.play_when_loaded || playing;
        self.save_error = None;
    }

    /// Opens `path`, once unsaved changes to the file open now are saved or
    /// let go.
    pub fn request_open(&mut self, path: &str, dirty: bool, playing: bool) -> (r: Effect)
        requires
            old(self).generation < u64::MAX,
        ensures
            final(self)@ == old(self)@.asked_to_open(path@, dirty, playing),
            r == if old(self).saving || dirty {
                Effect::Nothing
            } else {
                Effect::Load
            },
    {
        if self.saving {
            self.waiting = Some(After::Open(path.to_owned()));
            Effect::Nothing
        } else if dirty {
            self.asking = Some(After::Open(path.to_owned()));
            Effect::Nothing
        } else {
            self.open(path, playing);
            Effect::Load
        }
    }

    /// Closes the window, once unsaved changes are saved or let go.
    pub fn quit(&mut self, dirty: bool) -> (r: Effect)
        ensures
            final(self)@ == old(self)@.asked_to_quit(dirty),
            r == if old(self).saving || dirty {
                Effect::Nothing
            } else {
                Effect::Close
            },
    {
        if self.saving {
            self.waiting = Some(After::Quit);
            Effect::Nothing
        } else if dirty {
            self.asking = Some(After::Quit);
            Effect::Nothing
        } else {
            self.quitting = true;
            Effect::Close
        }
    }

    /// Whatever was waiting on the save, if it left nothing unsaved.
    pub fn go_ahead(&mut self, dirty: bool, playing: bool) -> (r: Effect)
        requires
            old(self).generation < u64::MAX,
        ensures
            final(self)@ == old(self)@.gone_ahead(dirty, playing),
            r == match old(self)@.waiting {
                Some(AfterView::Open(_)) => if dirty {
                    Effect::Nothing
                } else {
                    Effect::Load
                },
                Some(AfterView::Quit) => if dirty || old(self).saving {
                    Effect::Nothing
                } else {
                    Effect::Close
                },
                None => Effect::Nothing,
            },
    {
        let waiting = self.waiting.take();
        match waiting {
            Some(After::Open(path)) => {
                if dirty {
                    Effect::Nothing
                } else {
                    self.open(path.as_str(), playing);
                    Effect::Load
                }
            },
            Some(After::Quit) => {
                if dirty {
                    Effect::Nothing
                } else {
                    self.quit(false)
                }
            },
            None => Effect::Nothing,
        }
    }

    /// Takes an answer about unsaved changes.
    pub fn answer(&mut self, answer: Answer)
        ensures
            final(self)@ == old(self)@.answered(answer),
    {
        let asking = self.asking.take();
        match answer {
            Answer::Cancel => {},
            _ => {
                self.waiting = asking;
            },
        }
    }

    /// A file has been read, or was not; says whether it is still wanted,
    /// and whether it is to play.
    pub fn load_done(&mut self, generation: u64, frames: usize, failed: Option<String>) -> (r: (
        bool,
        bool,
    ))
        ensures
            final(self)@ == old(self)@.loaded(generation, frames, text_view(failed)),
            r.0 == (generation == old(self).generation),
            r.1 == (r.0 && failed is None && old(self).play_when_loaded),
    {
        if generation != self.generation {
            return (false, false);
        }
        self.loading = false;
        let play = self.play_when_loaded;
        self.play_when_loaded = false;
        match failed {
            None => {
                self.frames = Some(frames);
                (true, play)
            },
            Some(why) => {
                self.error = Some(why);
                (true, false)
            },
        }
    }

    /// Starts an analysis of the whole file or of the part in view, and
    /// gives its number.
    pub fn analyse(&mut self, whole: bool) -> (r: u64)
        requires
            old(self).jobs < u64::MAX,
        ensures
            final(self)@ == old(self)@.analysing(whole),
            r == final(self)@.jobs,
    {
        self.jobs = self.jobs + 1;
        if whole {
            self.whole_job = Some(self.jobs);
        } else {
            self.detail_job = Some(self.jobs);
        }
        self.jobs
    }

    /// Takes the result of an analysis.
    pub fn analysis_done(&mut self, generation: u64, id: u64, failed: Option<String>) -> (r: Slot)
        ensures
            final(self)@ == old(self)@.analysed(generation, id, text_view(failed)),
            r == old(self)@.slot(generation, id),
    {
        if generation != self.generation {
            return Slot::Stale;
        }
        let slot = if self.whole_job.is_some() && self.whole_job.unwrap() == id {
            self.whole_job = None;
            Slot::Whole
        } else if self.detail_job.is_some() && self.detail_job.unwrap() == id {
            self.detail_job = None;
            Slot::Detail
        } else {
            return Slot::Stale;
        };
        match failed {
            Some(why) => {
                self.error = Some(why);
            },
            None => {},
        }
        slot
    }

    /// Starts a save, unless one is under way.
    pub fn save(&mut self) -> (r: bool)
        ensures
            r == !old(self).saving,
            final(self)@ == if old(self).saving {
                old(self)@
            } else {
                SessionView { saving: true, save_error: None, ..old(self)@ }
            },
    {
        if self.saving {
            return false;
        }
        self.saving = true;
        self.save_error = None;
        true
    }

    /// Takes how a save went; says whether it was one of this file's.
    pub fn save_done(&mut self, generation: u64, failed: Option<String>) -> (r: bool)
        ensures
            final(self)@ == old(self)@.saved(generation, text_view(failed)),
            r == (generation == old(self).generation),
    {
        if generation != self.generation {
            return false;
        }
        self.saving = false;
        match failed {
            Some(why) => {
                let mut text = "Not saved: ".to_owned();
                text.append(why.as_str());
                self.save_error = Some(text);
                self.waiting = None;
            },
            None => {},
        }
        true
    }

    /// Moves the cursor, no further than the end of the file.
    pub fn seek(&mut self, frame: usize) -> (r: usize)
        ensures
            r == least(
                frame as int,
                match old(self).frames {
                    Some(n) => n as int,
                    None => 0,
                },
            ),
            final(self)@ == (SessionView { cursor: Some(r), ..old(self)@ }),
    {
        let frames: usize = match self.frames {
            Some(n) => n,
            None => 0,
        };
        let to: usize = if frame < frames {
            frame
        } else {
            frames
        };
        self.cursor = Some(to);
        to
    }

    /// Where playback starts: at the cursor, or at the start when it sits at
    /// the end; nowhere in a file that holds nothing.
    pub fn play_from(&self) -> (r: Option<usize>)
        ensures
            r == self@.plays_from(),
    {
        match self.frames {
            Some(n) => {
                if n == 0 {
                    None
                } else {
                    match self.cursor {
                        Some(c) if c < n => Some(c),
                        _ => Some(0),
                    }
                }
            },
            None => None,
        }
    }

    /// Plays or not once it has loaded, while a file loads.
    pub fn toggle_while_loading(&mut self) -> (r: bool)
        ensures
            r == old(self).frames is None,
            final(self)@ == old(self)@.toggled_while_loading(),
    {
        if self.frames.is_some() {
            return false;
        }
        if self.loading {
            self.play_when_loaded = !self.play_when_loaded;
        }
        true
    }

    /// Back to the start: of the selection when there is one, else of the
    /// file.
    pub fn stop(&mut self) -> (r: usize)
        ensures
            r == old(self)@.home(),
            final(self)@ == old(self)@.stopped(),
    {
        let home: usize = match self.selection {
            Some(s) => s.start,
            None => 0,
        };
        if self.frames.is_some() {
            self.cursor = Some(home);
        }
        home
    }

    /// Makes `selection` the selection. A new one repeats and starts playing
    /// at once, and clearing it stops the repeat: says whether the loop
    /// changes.
    pub fn select(&mut self, selection: Option<Span>) -> (r: bool)
        ensures
            r == (selection is Some || old(self).selection is Some),
            final(self)@ == old(self)@.selected(selection),
    {
        let had = self.selection.is_some();
        self.selection = selection;
        match selection {
            Some(s) => {
                self.cursor = Some(s.start);
                true
            },
            None => had,
        }
    }

    /// Where the file open goes when a batch of renames is made, or why none
    /// can be made now.
    pub fn bulk(&self, batch: &Vec<(String, String)>) -> (r: Result<Option<String>, String>)
        ensures
            match (r, bulk_of(self@, crate::rename_ui::batch_view(batch@))) {
                (Ok(a), Ok(b)) => text_view(a) == b,
                (Err(a), Err(b)) => a@ == b,
                _ => false,
            },
    {
        let ghost all = crate::rename_ui::batch_view(batch@);
        if self.saving {
            return Err("Nothing renamed while a save is under way.".to_owned());
        }
        let file = match &self.file {
            Some(file) => file,
            None => {
                return Ok(None);
            },
        };
        let mut i: usize = 0;
        assert(all.skip(0) =~= all);
        while i < batch.len()
            invariant
                i <= batch@.len(),
                all == crate::rename_ui::batch_view(batch@),
                !self.saving,
                self@.file == Some(file@),
                goes_to(all, file@) == goes_to(all.skip(i as int), file@),
            decreases batch@.len() - i,
        {
            proof {
                assert(all.skip(i as int)[0] == (batch@[i as int].0@, batch@[i as int].1@));
                assert(all.skip(i as int).skip(1) =~= all.skip(i + 1));
            }
            if same(batch[i].0.as_str(), file.as_str()) {
                if self.loading {
                    return Err("Nothing renamed: the file open is still loading.".to_owned());
                }
                return Ok(Some(batch[i].1.clone()));
            }
            i = i + 1;
        }
        Ok(None)
    }
}

/// Where a batch takes a file.
pub open spec fn goes_to(batch: Seq<(Seq<char>, Seq<char>)>, file: Seq<char>) -> Option<Seq<char>>
    decreases batch.len(),
{
    if batch.len() == 0 {
        None
    } else if batch[0].0 == file {
        Some(batch[0].1)
    } else {
        goes_to(batch.skip(1), file)
    }
}

/// Where the file open goes when a batch of renames is made, or why none can
/// be made now.
pub open spec fn bulk_of(s: SessionView, batch: Seq<(Seq<char>, Seq<char>)>) -> Result<
    Option<Seq<char>>,
    Seq<char>,
> {
    let to = match s.file {
        Some(file) => goes_to(batch, file),
        None => None,
    };
    if s.saving {
        Err("Nothing renamed while a save is under way."@)
    } else if to is Some && s.loading {
        Err("Nothing renamed: the file open is still loading."@)
    } else {
        Ok(to)
    }
}

/// Unsaved changes are never let go of unasked: neither another file nor the
/// end of the window is let through, and what was asked for waits.
pub proof fn unsaved_changes_are_asked_about(s: SessionView, path: Seq<char>, playing: bool)
    ensures
        s.asked_to_open(path, true, playing).file == s.file,
        s.asked_to_open(path, true, playing).generation == s.generation,
        s.asked_to_quit(true).quitting == s.quitting,
        s.gone_ahead(true, playing).file == s.file,
        s.gone_ahead(true, playing).quitting == s.quitting,
        !s.saving ==> s.asked_to_open(path, true, playing).asking == Some(AfterView::Open(path)),
        !s.saving ==> s.asked_to_quit(true).asking == Some(AfterView::Quit),
{
}

/// While a save is under way nothing takes the file's place, and what was
/// asked for goes ahead once it is done.
pub proof fn a_save_is_waited_for(s: SessionView, path: Seq<char>, dirty: bool, playing: bool)
    requires
        s.saving,
    ensures
        s.asked_to_open(path, dirty, playing).file == s.file,
        s.asked_to_quit(dirty).quitting == s.quitting,
        ({
            let after = s.asked_to_open(path, dirty, playing).saved(s.generation, None);
            &&& !after.saving
            &&& after.gone_ahead(false, playing).file == Some(path)
        }),
        s.asked_to_quit(dirty).saved(s.generation, None).gone_ahead(false, playing).quitting,
{
}

/// A save that failed leaves the window with its file, and what waited for
/// it is not done.
pub proof fn a_failed_save_stops_what_waited(
    s: SessionView,
    why: Seq<char>,
    dirty: bool,
    playing: bool,
)
    ensures
        ({
            let after = s.saved(s.generation, Some(why)).gone_ahead(dirty, playing);
            &&& after.file == s.file
            &&& after.quitting == s.quitting
            &&& after.save_error == Some("Not saved: "@ + why)
        }),
{
}

/// What arrives for a file that the window has moved on from changes
/// nothing.
pub proof fn results_for_an_earlier_file_are_dropped(
    s: SessionView,
    path: Seq<char>,
    playing: bool,
    id: u64,
    frames: usize,
    failed: Option<Seq<char>>,
)
    requires
        s.generation < u64::MAX,
    ensures
        ({
            let now = s.opened(path, playing);
            &&& now.loaded(s.generation, frames, failed) == now
            &&& now.analysed(s.generation, id, failed) == now
            &&& now.saved(s.generation, failed) == now
        }),
{
}

/// An analysis that another of the same kind has taken the place of is
/// dropped.
pub proof fn an_analysis_replaced_is_dropped(s: SessionView, whole: bool)
    requires
        s.jobs + 2 <= u64::MAX,
        s.whole_job matches Some(id) ==> id <= s.jobs,
        s.detail_job matches Some(id) ==> id <= s.jobs,
    ensures
        ({
            let first = s.analysing(whole);
            first.analysing(whole).slot(s.generation, first.jobs) == Slot::Stale
        }),
{
}

/// The analyses that were under way when a file was let go of.
#[derive(Debug, Clone, Copy, PartialEq, Eq, Structural)]
pub struct Released {
    pub whole: bool,
    pub detail: bool,
}

impl Session {
    /// Lets go of the file, for a save or a rename to replace or move it:
    /// analyses under way are dropped, to be started again after. `due` says
    /// whether one of the part in view was about to start.
    pub fn release(&mut self, due: bool) -> (r: Released)
        ensures
            r == (Released {
                whole: old(self).whole_job is Some,
                detail: old(self).detail_job is Some || due,
            }),
            final(self)@ == (SessionView { whole_job: None, detail_job: None, ..old(self)@ }),
    {
        let r = Released {
            whole: self.whole_job.is_some(),
            detail: self.detail_job.is_some() || due,
        };
        self.whole_job = None;
        self.detail_job = None;
        r
    }

    /// The file open is now at `path`, after a rename.
    pub fn moved(&mut self, path: &str)
        ensures
            final(self)@ == (SessionView { file: Some(path@), ..old(self)@ }),
    {
        self.file = Some(path.to_owned());
    }
}

/// What a click picks for the keys: a slider for the arrow keys, the file
/// explorer for them and Backspace, or the timeline for moving and sizing
/// the part in view.
#[derive(Debug, Clone, Copy, PartialEq, Eq, Structural)]
pub enum Control {
    Gain,
    Brightness,
    Contrast,
    Low,
    High,
    Pitch,
    Expansion,
    Speed,
    Explorer,
    Timeline,
}

impl Control {
    pub const SLIDERS: [Control; 8] = [
        Control::Gain,
        Control::Brightness,
        Control::Contrast,
        Control::Low,
        Control::High,
        Control::Pitch,
        Control::Expansion,
        Control::Speed,
    ];
}

/// Which control is picked.
#[derive(Debug, Clone, Copy, PartialEq, Eq, Structural)]
pub struct Picking {
    pub picked: Option<Control>,
    /// The press landed on the control already picked: a click lets it go.
    pub unpick_on_click: bool,
}

impl Default for Picking {
    fn default() -> (r: Self)
        ensures
            r == (Picking { picked: None, unpick_on_click: false }),
    {
        Picking { picked: None, unpick_on_click: false }
    }
}

impl Picking {
    /// After the pointer was pressed over `hit`, dragged or clicked.
    pub open spec fn after(
        self,
        pressed: bool,
        hit: Option<Control>,
        dragging: bool,
        clicked: bool,
    ) -> Picking {
        let down = if pressed {
            // The explorer stays picked while it is clicked in; a slider is
            // let go by a second click on it.
            Picking {
                unpick_on_click: hit is Some && hit == self.picked && hit
                    != Some(Control::Explorer),
                picked: hit,
            }
        } else {
            self
        };
        let moved = if dragging {
            Picking { unpick_on_click: false, ..down }
        } else {
            down
        };
        if clicked && moved.unpick_on_click {
            Picking { picked: None, unpick_on_click: false }
        } else {
            moved
        }
    }

    /// Takes what the pointer did.
    pub fn point(&mut self, pressed: bool, hit: Option<Control>, dragging: bool, clicked: bool)
        ensures
            *final(self) == old(self).after(pressed, hit, dragging, clicked),
    {
        if pressed {
            let same_control = match (hit, self.picked) {
                (Some(a), Some(b)) => a == b && a != Control::Explorer,
                _ => false,
            };
            self.unpick_on_click = same_control;
            self.picked = hit;
        }
        if dragging {
            self.unpick_on_click = false;
        }
        if clicked && self.unpick_on_click {
            self.unpick_on_click = false;
            self.picked = None;
        }
    }
}

/// The name that a file gets by another stem, its extension kept.
pub open spec fn restemmed(path: Seq<char>, stem: Seq<char>) -> Seq<char> {
    match extension_of(path) {
        Some(e) => trim_of(stem) + seq!['.'] + e,
        None => trim_of(stem),
    }
}

/// The name that a file gets by another stem, where it is another name.
pub fn new_name(path: &str, stem: &str) -> (r: Option<String>)
    ensures
        match r {
            Some(n) => n@ == restemmed(path@, stem@) && n@ != file_name_of(path@),
            None => restemmed(path@, stem@) == file_name_of(path@),
        },
{
    let t = trim(stem);
    let mut out = chars(t.as_str());
    match extension(path) {
        Some(e) => {
            out.push('.');
            extend(&mut out, e.as_slice());
        },
        None => {},
    }
    assert(out@ =~= restemmed(path@, stem@));
    let name = string(out.as_slice());
    let now = file_name(path);
    if same(name.as_str(), now.as_str()) {
        None
    } else {
        Some(name)
    }
}

/// The new marker: the selection as a region, or a point at the cursor.
pub open spec fn marker_to_add(s: SessionView, id: u32) -> MarkerView {
    let (frame, length) = match s.selection {
        Some(r) => (
            r.start,
            if r.start < r.end {
                (r.end - r.start) as usize
            } else {
                0
            },
        ),
        None => (
            match s.cursor {
                Some(c) => c,
                None => 0,
            },
            0usize,
        ),
    };
    MarkerView { id, frame, length, label: Seq::empty(), note: Seq::empty() }
}

impl Session {
    /// Adds a marker to those of the file, and gives its id; none while a
    /// save is under way.
    pub fn add_marker(&self, edits: &mut Edits) -> (r: Option<u32>)
        requires
            highest_id(old(edits)@.markers) < u32::MAX,
        ensures
            if self.saving {
                final(edits)@ == old(edits)@ && r is None
            } else {
                &&& r == Some((highest_id(old(edits)@.markers) + 1) as u32)
                &&& final(edits)@ == (EditsView {
                    markers: sort_marks(
                        old(edits)@.markers.push(marker_to_add(self@, r->0)),
                    ),
                    ..old(edits)@
                })
            },
    {
        if self.saving {
            return None;
        }
        let id: u32 = edits.next_marker_id();
        let mut frame: usize = match self.cursor {
            Some(c) => c,
            None => 0,
        };
        let mut length: usize = 0;
        match self.selection {
            Some(s) => {
                frame = s.start;
                if s.start < s.end {
                    length = s.end - s.start;
                }
            },
            None => {},
        }
        let m = Marker { id, frame, length, label: String::new(), note: String::new() };
        let ghost v = m@;
        assert(v =~= marker_to_add(self@, id));
        let ghost before = marks(edits.markers@);
        let mut markers: Vec<Marker> = Vec::new();
        std::mem::swap(&mut markers, &mut edits.markers);
        markers.push(m);
        assert(marks(markers@) =~= before.push(v));
        edits.markers = sort_markers(markers);
        Some(id)
    }
}

/// What a channel is called: its number, with its name where it has one.
pub open spec fn channel_name_of(channel: nat, name: Option<Seq<char>>) -> Seq<char> {
    match name {
        Some(n) => digits_of(channel + 1) + " · "@ + n,
        None => digits_of(channel + 1),
    }
}

/// What a channel is called.
pub fn channel_name(channel: usize, name: Option<&str>) -> (r: String)
    requires
        channel < usize::MAX,
    ensures
        r@ == channel_name_of(
            channel as nat,
            match name {
                Some(n) => Some(n@),
                None => None,
            },
        ),
{
    let mut text = string(decimal((channel + 1) as u64).as_slice());
    match name {
        Some(n) => {
            text.append(" · ");
            text.append(n);
        },
        None => {},
    }
    text
}

/// What a signal that is analysed is called.
pub fn target_name(target: Target, name: Option<&str>) -> (r: String)
    requires
        target matches Target::Channel(c) ==> c < usize::MAX,
    ensures
        r@ == match target {
            Target::Mix => "Mix"@,
            Target::Channel(c) => channel_name_of(
                c as nat,
                match name {
                    Some(n) => Some(n@),
                    None => None,
                },
            ),
        },
{
    match target {
        Target::Mix => "Mix".to_owned(),
        Target::Channel(c) => channel_name(c, name),
    }
}

/// A size of window that is offered: `fft` where it is one, and else the
/// one the window starts out with.
pub fn offered_fft(fft: usize) -> (r: usize)
    ensures
        r == if FFT_SIZES@.contains(fft) {
            fft
        } else {
            2048
        },
        FFT_SIZES@.contains(r),
{
    assert(FFT_SIZES@[2] == 2048);
    let sizes = FFT_SIZES;
    let n: usize = sizes.len();
    let mut i: usize = 0;
    while i < n
        invariant
            i <= n,
            sizes == FFT_SIZES,
            n == sizes@.len(),
            forall|j: int| 0 <= j < i ==> sizes@[j] != fft,
        decreases n - i,
    {
        if sizes[i] == fft {
            assert(FFT_SIZES@[i as int] == fft);
            return fft;
        }
        i = i + 1;
    }
    2048
}

/// How far work has got, as it is shown: `progress` is in thousandths.
pub fn percent(progress: u32) -> (r: u32)
    ensures
        r == progress / 10,
        10 * r <= progress < 10 * r + 10,
{
    progress / 10
}

/// The colours that a spectrogram can be drawn in.
#[derive(Debug, Clone, Copy, PartialEq, Eq, Structural)]
pub enum Colormap {
    Viridis,
    Inferno,
    Magma,
    Plasma,
    Turbo,
}

impl Colormap {
    pub const ALL: [Colormap; 5] = [
        Colormap::Viridis,
        Colormap::Inferno,
        Colormap::Magma,
        Colormap::Plasma,
        Colormap::Turbo,
    ];

    pub fn name(self) -> (r: &'static str)
        ensures
            r@ == match self {
                Colormap::Viridis => "Viridis"@,
                Colormap::Inferno => "Inferno"@,
                Colormap::Magma => "Magma"@,
                Colormap::Plasma => "Plasma"@,
                Colormap::Turbo => "Turbo"@,
            },
    {
        match self {
            Colormap::Viridis => "Viridis",
            Colormap::Inferno => "Inferno",
            Colormap::Magma => "Magma",
            Colormap::Plasma => "Plasma",
            Colormap::Turbo => "Turbo",
        }
    }
}

} // verus!
