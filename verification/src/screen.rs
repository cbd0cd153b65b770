//! What the window shows and what its keys do: decided from the state of
//! the window alone, for drawing and sound to follow.

use crate::audio::{Info, InfoView};
use crate::session::{Control, Session};
use crate::spectrogram::Channels;
use crate::text::{decimal, digits_of, join_chars, joined, runs, string};
use crate::wav::{marks, Marker, MarkerView};
use vstd::prelude::*;

verus! {

/// The keys that do something.
#[derive(Debug, Clone, Copy, PartialEq, Eq, Structural)]
pub enum Key {
    Backspace,
    Up,
    Down,
    Left,
    Right,
    Space,
    Home,
    End,
    Plus,
    Equals,
    Minus,
    Escape,
    B,
    F,
    M,
    R,
    S,
}

/// What the window is at when a key is pressed.
#[derive(Debug, Clone, Copy, PartialEq, Eq, Structural)]
pub struct Scene {
    /// Unsaved changes are being asked about.
    pub asking: bool,
    /// There are unsaved changes.
    pub dirty: bool,
    /// A new name is being typed.
    pub renaming: bool,
    /// The keys are those of a text.
    pub typing: bool,
    pub picked: Option<Control>,
    /// A file has loaded.
    pub loaded: bool,
    /// A file is loading.
    pub loading: bool,
}

/// What a key does.
#[derive(Debug, Clone, Copy, PartialEq, Eq, Structural)]
pub enum Deed {
    Nothing,
    /// Show the files, or hide them.
    ShowFiles,
    Save,
    /// Stop renaming.
    KeepName,
    /// The explorer one folder up.
    GoUp,
    /// The file above or below in the explorer.
    Step { down: bool },
    ResetAll,
    Reset(Control),
    TogglePlay,
    /// Along by a tenth of the part in view, or by all of it.
    Pan { forward: bool, all: bool },
    /// Wider or narrower by a quarter, or twice.
    Size { wider: bool, twice: bool },
    Nudge { control: Control, up: bool, coarse: bool },
    /// Seconds from where the cursor is.
    SeekBy(i64),
    /// Decibels brighter.
    Brighten(i64),
    SeekStart,
    SeekEnd,
    ZoomIn,
    ZoomOut,
    Fit,
    ZoomToSelection,
    AddMarker,
    /// Let go of the control picked.
    LetGo,
    ClearSelection,
}

/// What an arrow key does once a file has loaded: moves the timeline or the
/// slider that is picked, and else the cursor and the brightness.
pub open spec fn arrow_deed(key: Key, shift: bool, picked: Option<Control>) -> Deed {
    match picked {
        Some(Control::Timeline) => match key {
            Key::Left => Deed::Pan { forward: false, all: shift },
            Key::Right => Deed::Pan { forward: true, all: shift },
            Key::Up => Deed::Size { wider: true, twice: shift },
            _ => Deed::Size { wider: false, twice: shift },
        },
        None | Some(Control::Explorer) => match key {
            Key::Left => Deed::SeekBy(
                if shift {
                    (-10) as i64
                } else {
                    (-1) as i64
                },
            ),
            Key::Right => Deed::SeekBy(
                if shift {
                    10
                } else {
                    1
                },
            ),
            Key::Up => Deed::Brighten(5),
            _ => Deed::Brighten((-5) as i64),
        },
        Some(control) => Deed::Nudge {
            control,
            up: key == Key::Right || key == Key::Up,
            coarse: shift,
        },
    }
}

/// What a key does that is no text and no command.
pub open spec fn plain_deed(key: Key, shift: bool, at: Scene) -> Deed {
    let explorer = at.picked == Some(Control::Explorer);
    match key {
        Key::B => Deed::Nothing,
        Key::Backspace => if explorer {
            Deed::GoUp
        } else {
            Deed::Nothing
        },
        Key::R => if shift {
            Deed::ResetAll
        } else {
            match at.picked {
                Some(control) => Deed::Reset(control),
                None => Deed::Nothing,
            }
        },
        Key::Space => if at.loaded || at.loading {
            Deed::TogglePlay
        } else {
            Deed::Nothing
        },
        Key::Up | Key::Down => if explorer {
            Deed::Step { down: key == Key::Down }
        } else if at.loaded {
            arrow_deed(key, shift, at.picked)
        } else {
            Deed::Nothing
        },
        _ => if !at.loaded {
            Deed::Nothing
        } else {
            match key {
                Key::Left | Key::Right => arrow_deed(key, shift, at.picked),
                Key::Home => Deed::SeekStart,
                Key::End => Deed::SeekEnd,
                Key::Plus | Key::Equals => Deed::ZoomIn,
                Key::Minus => Deed::ZoomOut,
                Key::F => Deed::Fit,
                Key::S => Deed::ZoomToSelection,
                Key::M => Deed::AddMarker,
                _ => if at.picked is Some {
                    Deed::LetGo
                } else {
                    Deed::ClearSelection
                },
            }
        },
    }
}

/// What a key does. While unsaved changes are asked about, keys are the
/// question's; while text is typed they are the text's, but for the
/// commands and the Escape that ends a new name.
pub open spec fn deed_of(key: Key, shift: bool, command: bool, at: Scene) -> Deed {
    if at.asking {
        Deed::Nothing
    } else if command {
        if key == Key::B {
            Deed::ShowFiles
        } else if key == Key::S && at.dirty {
            Deed::Save
        } else {
            Deed::Nothing
        }
    } else if key == Key::Escape && at.renaming {
        Deed::KeepName
    } else if at.typing {
        Deed::Nothing
    } else {
        plain_deed(key, shift, at)
    }
}

fn arrow(key: Key, shift: bool, picked: Option<Control>) -> (r: Deed)
    ensures
        r == arrow_deed(key, shift, picked),
{
    match picked {
        Some(Control::Timeline) => match key {
            Key::Left => Deed::Pan { forward: false, all: shift },
            Key::Right => Deed::Pan { forward: true, all: shift },
            Key::Up => Deed::Size { wider: true, twice: shift },
            _ => Deed::Size { wider: false, twice: shift },
        },
        None | Some(Control::Explorer) => match key {
            Key::Left => Deed::SeekBy(
                if shift {
                    -10
                } else {
                    -1
                },
            ),
            Key::Right => Deed::SeekBy(
                if shift {
                    10
                } else {
                    1
                },
            ),
            Key::Up => Deed::Brighten(5),
            _ => Deed::Brighten(-5),
        },
        Some(control) => Deed::Nudge {
            control,
            up: key == Key::Right || key == Key::Up,
            coarse: shift,
        },
    }
}

fn plain(key: Key, shift: bool, at: Scene) -> (r: Deed)
    ensures
        r == plain_deed(key, shift, at),
{
    let explorer = match at.picked {
        Some(Control::Explorer) => true,
        _ => false,
    };
    if key == Key::Backspace {
        return if explorer {
            Deed::GoUp
        } else {
            Deed::Nothing
        };
    }
    if explorer && (key == Key::Up || key == Key::Down) {
        return Deed::Step { down: key == Key::Down };
    }
    if key == Key::R {
        return if shift {
            Deed::ResetAll
        } else {
            match at.picked {
                Some(control) => Deed::Reset(control),
                None => Deed::Nothing,
            }
        };
    }
    if key == Key::Space && (at.loaded || at.loading) {
        return Deed::TogglePlay;
    }
    if !at.loaded {
        return Deed::Nothing;
    }
    match key {
        Key::Up | Key::Down | Key::Left | Key::Right => arrow(key, shift, at.picked),
        Key::Home => Deed::SeekStart,
        Key::End => Deed::SeekEnd,
        Key::Plus | Key::Equals => Deed::ZoomIn,
        Key::Minus => Deed::ZoomOut,
        Key::F => Deed::Fit,
        Key::S => Deed::ZoomToSelection,
        Key::M => Deed::AddMarker,
        Key::Escape => if at.picked.is_some() {
            Deed::LetGo
        } else {
            Deed::ClearSelection
        },
        _ => Deed::Nothing,
    }
}

/// What a key does.
pub fn deed(key: Key, shift: bool, command: bool, at: Scene) -> (r: Deed)
    ensures
        r == deed_of(key, shift, command, at),
{
    if at.asking {
        Deed::Nothing
    } else if command {
        if key == Key::B {
            Deed::ShowFiles
        } else if key == Key::S && at.dirty {
            Deed::Save
        } else {
            Deed::Nothing
        }
    } else if key == Key::Escape && at.renaming {
        Deed::KeepName
    } else if at.typing {
        Deed::Nothing
    } else {
        plain(key, shift, at)
    }
}

/// While text is typed, no key does anything but a command and the Escape
/// that ends a new name.
pub proof fn typing_is_left_alone(key: Key, shift: bool, command: bool, at: Scene)
    requires
        at.typing,
    ensures
        deed_of(key, shift, command, at) == Deed::Nothing || command || key == Key::Escape
            && at.renaming,
{
}

/// No key changes, saves or plays anything while unsaved changes are asked
/// about.
pub proof fn a_question_takes_every_key(key: Key, shift: bool, command: bool, at: Scene)
    requires
        at.asking,
    ensures
        deed_of(key, shift, command, at) == Deed::Nothing,
{
}

/// R puts back the control that is picked, and with Shift every one.
pub proof fn r_resets_what_is_picked(at: Scene)
    requires
        !at.asking,
        !at.typing,
    ensures
        deed_of(Key::R, true, false, at) == Deed::ResetAll,
        at.picked matches Some(c) ==> deed_of(Key::R, false, false, at) == Deed::Reset(c),
        at.picked is None ==> deed_of(Key::R, false, false, at) == Deed::Nothing,
{
}

/// M marks a place in a file that has loaded.
pub proof fn m_marks_a_place(at: Scene, shift: bool)
    requires
        !at.asking,
        !at.typing,
    ensures
        deed_of(Key::M, shift, false, at) == if at.loaded {
            Deed::AddMarker
        } else {
            Deed::Nothing
        },
{
}

/// Before a file has loaded, no key reaches into one.
pub proof fn keys_before_a_file_leave_it_alone(
    key: Key,
    shift: bool,
    command: bool,
    at: Scene,
)
    requires
        !at.loaded,
    ensures
        match deed_of(key, shift, command, at) {
            Deed::Nothing | Deed::ShowFiles | Deed::Save | Deed::KeepName | Deed::GoUp
            | Deed::Step { .. } | Deed::ResetAll | Deed::Reset(_) => true,
            Deed::TogglePlay => at.loading,
            _ => false,
        },
{
}

/// The views that are switched on.
#[derive(Debug, Clone, Copy, PartialEq, Eq, Structural)]
pub struct Views {
    pub spectrogram: bool,
    pub waveform: bool,
    pub spectrum: bool,
    pub markers: bool,
    pub metadata: bool,
    pub timeline: bool,
    pub meters: bool,
    /// The short form for renaming the files in the explorer's folder.
    pub rename: bool,
}

/// What the middle of the window holds.
#[derive(Debug, Clone, Copy, PartialEq, Eq, Structural)]
pub enum Middle {
    /// The spectrogram over the waveform, with the time axis under it.
    Both,
    Spectrogram,
    Waveform,
    /// The views that else are beside.
    Side,
    /// A word that every view is off.
    Nothing,
}

/// A view beside the middle.
#[derive(Debug, Clone, Copy, PartialEq, Eq, Structural)]
pub enum Beside {
    Spectrum,
    Markers,
    Metadata,
    Rename,
}

/// What goes where.
#[derive(Debug, PartialEq)]
pub struct Layout {
    pub middle: Middle,
    /// Whether the views beside have a panel of their own.
    pub panel: bool,
    /// The views beside, from the top.
    pub side: Vec<Beside>,
    pub meters: bool,
    pub timeline: bool,
}

impl Default for Views {
    fn default() -> (r: Self)
        ensures
            r.spectrogram && r.waveform && r.spectrum && r.markers && !r.metadata && r.timeline
                && r.meters && !r.rename,
    {
        Views {
            spectrogram: true,
            waveform: true,
            spectrum: true,
            markers: true,
            metadata: false,
            timeline: true,
            meters: true,
            rename: false,
        }
    }
}

impl Views {
    pub open spec fn has_middle(self) -> bool {
        self.spectrogram || self.waveform
    }

    pub open spec fn has_side(self) -> bool {
        self.spectrum || self.markers || self.metadata || self.rename
    }

    /// Whether a view beside is switched on.
    pub open spec fn on(self, b: Beside) -> bool {
        match b {
            Beside::Spectrum => self.spectrum,
            Beside::Markers => self.markers,
            Beside::Metadata => self.metadata,
            Beside::Rename => self.rename,
        }
    }

    pub open spec fn middle(self) -> Middle {
        if self.spectrogram && self.waveform {
            Middle::Both
        } else if self.spectrogram {
            Middle::Spectrogram
        } else if self.waveform {
            Middle::Waveform
        } else if self.has_side() {
            Middle::Side
        } else {
            Middle::Nothing
        }
    }

    pub open spec fn one(self, b: Beside) -> Seq<Beside> {
        if self.on(b) {
            seq![b]
        } else {
            Seq::empty()
        }
    }

    /// The spectrum over the markers over the metadata over renaming. Until a
    /// file is open, one of them alone: renaming, which needs no file, and
    /// else the first.
    pub open spec fn side(self, loaded: bool) -> Seq<Beside> {
        let all = self.one(Beside::Spectrum) + self.one(Beside::Markers) + self.one(
            Beside::Metadata,
        ) + self.one(Beside::Rename);
        if loaded || all.len() == 0 {
            all
        } else if self.rename {
            seq![Beside::Rename]
        } else {
            seq![all[0]]
        }
    }

    /// What goes where.
    pub fn layout(&self, loaded: bool) -> (r: Layout)
        ensures
            r.middle == self.middle(),
            r.panel == (self.has_middle() && self.has_side()),
            r.side@ == self.side(loaded),
            r.meters == (loaded && self.meters),
            r.timeline == (loaded && self.timeline),
    {
        let has_side = self.spectrum || self.markers || self.metadata || self.rename;
        let middle = if self.spectrogram && self.waveform {
            Middle::Both
        } else if self.spectrogram {
            Middle::Spectrogram
        } else if self.waveform {
            Middle::Waveform
        } else if has_side {
            Middle::Side
        } else {
            Middle::Nothing
        };
        let mut side: Vec<Beside> = Vec::new();
        if !loaded && self.rename {
            side.push(Beside::Rename);
        } else {
            if self.spectrum {
                side.push(Beside::Spectrum);
            }
            if self.markers && (loaded || side.len() == 0) {
                side.push(Beside::Markers);
            }
            if self.metadata && (loaded || side.len() == 0) {
                side.push(Beside::Metadata);
            }
            if self.rename {
                side.push(Beside::Rename);
            }
        }
        assert(side@ =~= self.side(loaded));
        Layout {
            middle,
            panel: (self.spectrogram || self.waveform) && has_side,
            side,
            meters: loaded && self.meters,
            timeline: loaded && self.timeline,
        }
    }
}

/// No view is shown that is switched off, none is shown twice, and where any
/// beside is on, one is shown.
pub proof fn what_is_beside_is_switched_on(v: Views, loaded: bool)
    ensures
        forall|i: int| 0 <= i < v.side(loaded).len() ==> v.on(#[trigger] v.side(loaded)[i]),
        v.side(loaded).no_duplicates(),
        v.has_side() <==> v.side(loaded).len() > 0,
        loaded ==> forall|b: Beside| v.on(b) ==> #[trigger] v.side(loaded).contains(b),
{
    let a = v.one(Beside::Spectrum);
    let b = v.one(Beside::Markers);
    let c = v.one(Beside::Metadata);
    let d = v.one(Beside::Rename);
    let all = a + b + c + d;
    assert forall|x: Beside| v.on(x) implies #[trigger] all.contains(x) by {
        match x {
            Beside::Spectrum => {
                assert(all[0] == x);
            },
            Beside::Markers => {
                assert(all[a.len() as int] == x);
            },
            Beside::Metadata => {
                assert(all[(a.len() + b.len()) as int] == x);
            },
            Beside::Rename => {
                assert(all[(a.len() + b.len() + c.len()) as int] == x);
            },
        }
    }
}

/// What the buttons for playing offer.
#[derive(Debug, Clone, Copy, PartialEq, Eq, Structural)]
pub struct Buttons {
    /// The button says Pause rather than Play.
    pub pause: bool,
    pub play: bool,
    pub stop: bool,
    pub mark: bool,
    pub zoom: bool,
    pub selection: bool,
    /// The file's name can be changed.
    pub rename: bool,
}

/// What the buttons offer: `playing` says whether the file is heard, and
/// `editable` whether its marks can be kept in it.
pub fn buttons(s: &Session, playing: bool, editable: bool) -> (r: Buttons)
    ensures
        r == (Buttons {
            pause: playing || s.loading && s.play_when_loaded,
            play: s.frames is Some || s.loading,
            stop: s.frames is Some,
            mark: editable && !s.saving,
            zoom: s.frames is Some,
            selection: s.selection is Some,
            rename: s.frames is Some && !s.saving,
        }),
{
    let loaded = s.frames.is_some();
    Buttons {
        pause: playing || s.loading && s.play_when_loaded,
        play: loaded || s.loading,
        stop: loaded,
        mark: editable && !s.saving,
        zoom: loaded,
        selection: s.selection.is_some(),
        rename: loaded && !s.saving,
    }
}

/// What there is to say of a file in one line. Numbers that are no whole
/// ones are given as text.
pub open spec fn summary_parts(
    info: InfoView,
    rate: Seq<char>,
    length: Seq<char>,
    expansion: Option<Seq<char>>,
    pitch: Option<Seq<char>>,
    recorder: Option<Seq<char>>,
    date: Option<Seq<char>>,
    time: Option<Seq<char>>,
) -> Seq<Seq<char>> {
    seq![info.container, rate + "Hz"@] + match info.bits {
        Some(b) => seq![digits_of(b as nat) + "-bit"@],
        None => Seq::empty(),
    } + seq![digits_of(info.channels as nat) + " ch"@, length] + match expansion {
        Some(e) => seq!["time expanded ×"@ + e],
        None => Seq::empty(),
    } + match pitch {
        Some(p) => seq!["pitch "@ + p + " semitones"@],
        None => Seq::empty(),
    } + match recorder {
        Some(r) => seq![r],
        None => Seq::empty(),
    } + match time {
        Some(t) => seq![
            match date {
                Some(d) => d + seq![' '] + t,
                None => t,
            },
        ],
        None => Seq::empty(),
    }
}

fn push_part(parts: &mut Vec<Vec<char>>, text: &str)
    ensures
        runs(final(parts)@) == runs(old(parts)@) + seq![text@],
{
    let ghost before = runs(parts@);
    let part = crate::text::chars(text);
    parts.push(part);
    assert(runs(parts@) =~= before + seq![text@]);
}

/// What there is to say of a file in one line.
pub fn summary(
    info: &Info,
    rate: &str,
    length: &str,
    expansion: Option<&str>,
    pitch: Option<&str>,
    recorder: Option<&str>,
    date: Option<&str>,
    time: Option<&str>,
) -> (r: String)
    ensures
        r@ == joined(
            summary_parts(
                info@,
                rate@,
                length@,
                shown(expansion),
                shown(pitch),
                shown(recorder),
                shown(date),
                shown(time),
            ),
            "  ·  "@,
        ),
{
    let mut parts: Vec<Vec<char>> = Vec::new();
    push_part(&mut parts, info.container.as_str());
    let mut text = rate.to_owned();
    text.append("Hz");
    push_part(&mut parts, text.as_str());
    match info.bits {
        Some(b) => {
            let mut text = string(decimal(b as u64).as_slice());
            text.append("-bit");
            push_part(&mut parts, text.as_str());
        },
        None => {},
    }
    let mut text = string(decimal(info.channels as u64).as_slice());
    text.append(" ch");
    push_part(&mut parts, text.as_str());
    push_part(&mut parts, length);
    match expansion {
        Some(e) => {
            let mut text = "time expanded ×".to_owned();
            text.append(e);
            push_part(&mut parts, text.as_str());
        },
        None => {},
    }
    match pitch {
        Some(p) => {
            let mut text = "pitch ".to_owned();
            text.append(p);
            text.append(" semitones");
            push_part(&mut parts, text.as_str());
        },
        None => {},
    }
    match recorder {
        Some(r) => {
            push_part(&mut parts, r);
        },
        None => {},
    }
    match time {
        Some(t) => {
            match date {
                Some(d) => {
                    let mut text = d.to_owned();
                    proof {
                        reveal_strlit(" ");
                        assert(" "@ =~= seq![' ']);
                    }
                    text.append(" ");
                    text.append(t);
                    push_part(&mut parts, text.as_str());
                },
                None => {
                    push_part(&mut parts, t);
                },
            }
        },
        None => {},
    }
    proof {
        assert(runs(parts@) =~= summary_parts(
            info@,
            rate@,
            length@,
            shown(expansion),
            shown(pitch),
            shown(recorder),
            shown(date),
            shown(time),
        ));
    }
    let sep = crate::text::chars("  ·  ");
    let line = join_chars(&parts, sep.as_slice());
    string(line.as_slice())
}

pub open spec fn shown(s: Option<&str>) -> Option<Seq<char>> {
    match s {
        Some(s) => Some(s@),
        None => None,
    }
}

/// What the meters are called: M for one, and else their numbers.
pub fn meter_labels(channels: u16) -> (r: Vec<String>)
    ensures
        r@.len() == channels,
        forall|i: int|
            0 <= i < r@.len() ==> (#[trigger] r@[i])@ == if channels == 1 {
                "M"@
            } else {
                digits_of((i + 1) as nat)
            },
{
    let mut out: Vec<String> = Vec::new();
    if channels == 1 {
        out.push("M".to_owned());
        return out;
    }
    let mut c: u16 = 0;
    while c < channels
        invariant
            c <= channels,
            channels != 1,
            out@.len() == c,
            forall|i: int| 0 <= i < out@.len() ==> (#[trigger] out@[i])@ == digits_of((i + 1) as nat),
        decreases channels - c,
    {
        out.push(string(decimal(c as u64 + 1).as_slice()));
        c = c + 1;
    }
    out
}

/// What the choice of channels is shown as, on a file with `count` of them
/// that are called `names`.
pub fn channels_shown(channels: Channels, count: usize, names: &Vec<String>) -> (r: String)
    requires
        names@.len() >= count,
    ensures
        r@ == match channels {
            Channels::All => if count > 1 {
                "All"@
            } else {
                "Mix"@
            },
            Channels::One(c) => if c < count {
                names@[c as int]@
            } else {
                "Mix"@
            },
            Channels::Mix => "Mix"@,
        },
{
    match channels {
        Channels::All => if count > 1 {
            "All".to_owned()
        } else {
            "Mix".to_owned()
        },
        Channels::One(c) => if c < count {
            names[c].clone()
        } else {
            "Mix".to_owned()
        },
        Channels::Mix => "Mix".to_owned(),
    }
}

/// Where a mark of this length can start at the latest.
pub open spec fn last_start(frames: usize, length: usize) -> usize {
    if length <= frames {
        (frames - length) as usize
    } else {
        0
    }
}

/// `m` moved to `frame`, as far as there is room for it.
pub open spec fn moved_mark(m: MarkerView, id: u32, frame: usize, frames: usize) -> MarkerView {
    if m.id != id {
        m
    } else if frame <= last_start(frames, m.length) {
        MarkerView { frame, ..m }
    } else {
        MarkerView { frame: last_start(frames, m.length), ..m }
    }
}

/// The first of the marks with this id, moved.
pub open spec fn with_moved(
    s: Seq<MarkerView>,
    id: u32,
    frame: usize,
    frames: usize,
) -> Seq<MarkerView>
    decreases s.len(),
{
    if s.len() == 0 {
        s
    } else if s[0].id == id {
        seq![moved_mark(s[0], id, frame, frames)] + s.skip(1)
    } else {
        seq![s[0]] + with_moved(s.skip(1), id, frame, frames)
    }
}

/// Drags the mark with this id to `frame`, as far as the file has room for
/// it.
pub fn move_marker(markers: &mut Vec<Marker>, id: u32, frame: usize, frames: usize)
    ensures
        marks(final(markers)@) == with_moved(marks(old(markers)@), id, frame, frames),
{
    let ghost all = marks(markers@);
    let mut i: usize = 0;
    proof {
        assert(all.skip(0) =~= all);
        assert(all.take(0) + with_moved(all.skip(0), id, frame, frames) =~= with_moved(
            all,
            id,
            frame,
            frames,
        ));
    }
    while i < markers.len()
        invariant
            i <= markers@.len(),
            all == marks(markers@),
            all == marks(old(markers)@),
            with_moved(all, id, frame, frames) == all.take(i as int) + with_moved(
                all.skip(i as int),
                id,
                frame,
                frames,
            ),
        decreases markers@.len() - i,
    {
        let ghost rest = all.skip(i as int);
        assert(rest[0] == markers@[i as int]@);
        assert(rest.skip(1) =~= all.skip(i + 1));
        if markers[i].id == id {
            let m = &markers[i];
            let last: usize = if m.length <= frames {
                frames - m.length
            } else {
                0
            };
            let to: usize = if frame <= last {
                frame
            } else {
                last
            };
            let moved = Marker {
                id: m.id,
                frame: to,
                length: m.length,
                label: m.label.clone(),
                note: m.note.clone(),
            };
            let ghost v = moved@;
            assert(v =~= moved_mark(rest[0], id, frame, frames));
            markers.set(i, moved);
            proof {
                assert(marks(markers@) =~= all.update(i as int, v));
                assert(all.update(i as int, v) =~= all.take(i as int) + (seq![v] + all.skip(
                    i + 1,
                )));
            }
            return;
        }
        i = i + 1;
        proof {
            assert(all.take(i - 1) + (seq![rest[0]] + with_moved(
                all.skip(i as int),
                id,
                frame,
                frames,
            )) =~= all.take(i as int) + with_moved(all.skip(i as int), id, frame, frames));
        }
    }
    assert(all.take(i as int) + with_moved(all.skip(i as int), id, frame, frames) =~= all);
}

/// A mark that is dragged stays within the file where it fits in it.
pub proof fn a_dragged_mark_stays_in_the_file(m: MarkerView, frame: usize, frames: usize)
    requires
        m.length <= frames,
    ensures
        moved_mark(m, m.id, frame, frames).frame + m.length <= frames,
        moved_mark(m, m.id, frame, frames).length == m.length,
{
}

} // verus!
