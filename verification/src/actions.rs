//! What keys, clicks and results do to what is open and shown.

use crate::audio::InfoView;
use crate::path::extension_of;
use crate::playback::Span;
use crate::screen::{
    arrow_deed, deed_of, summary_parts, with_moved, Beside, Deed, Key, Middle, Scene, Views,
};
use crate::session::{
    bulk_of, channel_name_of, goes_to, marker_to_add, restemmed, AfterView, Answer, Control,
    Picking, SessionView, Slot,
};
use crate::text::{digits_of, trim_of};
use crate::wav::MarkerView;
use vstd::prelude::*;

verus! {

/// A file that is opened starts afresh: it is loading, nothing of the one
/// before it is shown, and results that were asked for before it are told from
/// its own.
pub proof fn opening_starts_afresh(s: SessionView, path: Seq<char>, playing: bool)
    requires
        s.generation < u64::MAX,
    ensures
        ({
            let next = s.opened(path, playing);
            &&& next.file == Some(path) && next.loading
            &&& next.frames is None && next.error is None && next.save_error is None
            &&& next.whole_job is None && next.detail_job is None
            &&& next.selection is None && next.cursor is None
            &&& next.generation != s.generation
            &&& playing ==> next.play_when_loaded
            &&& next.saving == s.saving && next.asking == s.asking && next.quitting == s.quitting
        }),
{
}

/// A load ends with the frames of the file or with what went wrong, and the
/// file is then no longer loading.
pub proof fn a_load_ends(s: SessionView, frames: usize, why: Seq<char>)
    ensures
        ({
            let next = s.loaded(s.generation, frames, None);
            &&& !next.loading && next.frames == Some(frames) && next.error == s.error
            &&& next.file == s.file && !next.play_when_loaded
        }),
        ({
            let next = s.loaded(s.generation, frames, Some(why));
            &&& !next.loading && next.frames == s.frames && next.error == Some(why)
            &&& next.file == s.file && !next.play_when_loaded
        }),
{
}

/// Quitting goes ahead only where nothing is unsaved or being saved; else it is
/// asked about, or waits.
pub proof fn quitting_loses_nothing(s: SessionView, dirty: bool)
    requires
        !s.quitting,
    ensures
        s.asked_to_quit(dirty).quitting <==> !dirty && !s.saving,
        s.saving ==> s.asked_to_quit(dirty).waiting == Some(AfterView::Quit),
        !s.saving && dirty ==> s.asked_to_quit(dirty).asking == Some(AfterView::Quit),
        s.asked_to_quit(dirty).file == s.file,
{
}

/// An answer ends the question. What was asked about waits for its turn, unless
/// the answer is to leave everything as it is.
pub proof fn an_answer_ends_the_question(s: SessionView, answer: Answer)
    ensures
        s.answered(answer).asking is None,
        answer == Answer::Cancel ==> s.answered(answer).waiting == s.waiting,
        answer == Answer::Save || answer == Answer::Discard ==> s.answered(answer).waiting
            == s.asking,
        s.answered(answer).file == s.file && !s.quitting ==> !s.answered(answer).quitting,
{
}

/// What waited goes ahead once, where nothing is unsaved.
pub proof fn what_waited_goes_ahead_once(s: SessionView, dirty: bool, playing: bool)
    ensures
        !s.saving ==> s.gone_ahead(dirty, playing).waiting is None,
        dirty ==> s.gone_ahead(dirty, playing).file == s.file && s.gone_ahead(
            dirty,
            playing,
        ).quitting == s.quitting,
        !dirty ==> (s.waiting matches Some(AfterView::Open(path)) ==> s.gone_ahead(
            dirty,
            playing,
        ).file == Some(path) && s.gone_ahead(dirty, playing).loading),
        !dirty && !s.saving && s.waiting == Some(AfterView::Quit) ==> s.gone_ahead(
            dirty,
            playing,
        ).quitting,
        s.waiting is None ==> s.gone_ahead(dirty, playing) == s,
{
    if s.waiting is None {
        assert(s.gone_ahead(dirty, playing) =~= s);
    }
}

/// The open file goes where a batch renames it to, and stays where it does not.
pub proof fn the_open_file_goes_with_its_batch(
    before: Seq<(Seq<char>, Seq<char>)>,
    file: Seq<char>,
    to: Seq<char>,
    after: Seq<(Seq<char>, Seq<char>)>,
)
    requires
        forall|i: int| 0 <= i < before.len() ==> (#[trigger] before[i]).0 != file,
    ensures
        goes_to(before + seq![(file, to)] + after, file) == Some(to),
        goes_to(before, file) is None,
    decreases before.len(),
{
    let all = before + seq![(file, to)] + after;
    if before.len() > 0 {
        let rest = before.skip(1);
        assert forall|i: int| 0 <= i < rest.len() implies (#[trigger] rest[i]).0 != file by {
            assert(rest[i] == before[i + 1]);
        }
        the_open_file_goes_with_its_batch(rest, file, to, after);
        assert(all[0] == before[0]);
        assert(all.skip(1) =~= rest + seq![(file, to)] + after);
    } else {
        assert(all[0] == (file, to));
    }
}

/// Nothing is renamed while a save is under way, nor the open file while it
/// loads.
pub proof fn a_batch_waits_for_the_open_file(s: SessionView, batch: Seq<(Seq<char>, Seq<char>)>)
    ensures
        s.saving ==> bulk_of(s, batch) is Err,
        s.file is None && !s.saving ==> bulk_of(s, batch) == Ok::<Option<Seq<char>>, Seq<char>>(
            None,
        ),
        s.file matches Some(file) ==> {
            &&& s.loading && goes_to(batch, file) is Some ==> bulk_of(s, batch) is Err
            &&& !s.saving && !s.loading ==> bulk_of(s, batch) == Ok::<
                Option<Seq<char>>,
                Seq<char>,
            >(goes_to(batch, file))
        },
{
}

/// A press picks what it hits and lets go of anything else. A click on the
/// control already picked lets it go, but for the explorer, and a drag does not.
pub proof fn a_press_picks_what_it_hits(p: Picking, hit: Option<Control>)
    ensures
        p.after(true, hit, false, false).picked == hit,
        p.after(true, hit, true, true).picked == hit,
        hit != p.picked ==> p.after(true, hit, false, true).picked == hit,
        hit is Some && hit == p.picked && hit != Some(Control::Explorer) ==> p.after(
            true,
            hit,
            false,
            true,
        ).picked is None,
        p.picked == Some(Control::Explorer) ==> p.after(
            true,
            Some(Control::Explorer),
            false,
            true,
        ).picked == Some(Control::Explorer),
        p.after(false, hit, false, false) == p,
{
}

/// A new mark has its id and no name, and stands over the selection, or at the
/// cursor where there is none.
pub proof fn a_new_mark_stands_over_the_selection(s: SessionView, id: u32)
    ensures
        ({
            let m = marker_to_add(s, id);
            &&& m.id == id && m.label.len() == 0 && m.note.len() == 0
            &&& s.selection matches Some(r) ==> m.frame == r.start && (r.start <= r.end ==> m.frame
                + m.length == r.end)
            &&& s.selection is None ==> m.length == 0 && (s.cursor matches Some(c) ==> m.frame == c)
            &&& s.selection is None && s.cursor is None ==> m.frame == 0
        }),
{
}

/// A new name keeps the extension of the file it is for.
pub proof fn a_new_name_keeps_the_extension(path: Seq<char>, stem: Seq<char>, dir: Seq<char>)
    requires
        trim_of(stem).len() > 0,
        !trim_of(stem).contains('/'),
        extension_of(path) is Some,
        !(extension_of(path)->0).contains('/'),
        !(extension_of(path)->0).contains('.'),
    ensures
        restemmed(path, stem).take(trim_of(stem).len() as int) == trim_of(stem),
        extension_of(dir + seq!['/'] + restemmed(path, stem)) == extension_of(path),
{
    let t = trim_of(stem);
    let e = extension_of(path)->0;
    let name = restemmed(path, stem);
    assert(name =~= t + seq!['.'] + e);
    assert(name.take(t.len() as int) =~= t);
    crate::path::an_extension_follows_the_last_dot(dir, t, e);
    assert(dir + seq!['/'] + name =~= dir + seq!['/'] + t + seq!['.'] + e);
}

/// Channels are counted from one.
pub proof fn channels_are_counted_from_one(channel: nat)
    ensures
        channel_name_of(channel, None) == digits_of(channel + 1),
        forall|name: Seq<char>| #[trigger]
            channel_name_of(channel, Some(name)).take(digits_of(channel + 1).len() as int)
                == digits_of(channel + 1) && channel_name_of(channel, Some(name)).skip(
                channel_name_of(channel, Some(name)).len() - name.len(),
            ) == name,
{
    assert forall|name: Seq<char>| #[trigger]
        channel_name_of(channel, Some(name)).take(digits_of(channel + 1).len() as int) == digits_of(
            channel + 1,
        ) && channel_name_of(channel, Some(name)).skip(
            channel_name_of(channel, Some(name)).len() - name.len(),
        ) == name by {
        let text = channel_name_of(channel, Some(name));
        assert(text.take(digits_of(channel + 1).len() as int) =~= digits_of(channel + 1));
        assert(text.skip(text.len() - name.len()) =~= name);
    }
}

/// What undoes a deed that goes one way or the other.
pub open spec fn opposite(deed: Deed) -> Deed {
    match deed {
        Deed::Pan { forward, all } => Deed::Pan { forward: !forward, all },
        Deed::Size { wider, twice } => Deed::Size { wider: !wider, twice },
        Deed::Nudge { control, up, coarse } => Deed::Nudge { control, up: !up, coarse },
        Deed::SeekBy(seconds) => Deed::SeekBy((-seconds) as i64),
        Deed::Brighten(steps) => Deed::Brighten((-steps) as i64),
        other => other,
    }
}

/// Arrow keys that point apart do opposite things, whatever is picked, and the
/// ones that point right and up go forward and up.
pub proof fn arrows_that_point_apart_do_the_opposite(shift: bool, picked: Option<Control>)
    ensures
        arrow_deed(Key::Left, shift, picked) == opposite(arrow_deed(Key::Right, shift, picked)),
        arrow_deed(Key::Down, shift, picked) == opposite(arrow_deed(Key::Up, shift, picked)),
        arrow_deed(Key::Right, shift, picked) != arrow_deed(Key::Left, shift, picked),
        arrow_deed(Key::Up, shift, picked) != arrow_deed(Key::Down, shift, picked),
        match arrow_deed(Key::Right, shift, picked) {
            Deed::Pan { forward, all } => picked == Some(Control::Timeline) && forward && all
                == shift,
            Deed::SeekBy(seconds) => (picked is None || picked == Some(Control::Explorer))
                && seconds == if shift {
                10int
            } else {
                1
            },
            Deed::Nudge { control, up, coarse } => picked == Some(control) && up && coarse == shift,
            _ => false,
        },
        match arrow_deed(Key::Up, shift, picked) {
            Deed::Size { wider, twice } => picked == Some(Control::Timeline) && wider && twice
                == shift,
            Deed::Brighten(steps) => (picked is None || picked == Some(Control::Explorer)) && steps
                == 5,
            Deed::Nudge { control, up, coarse } => picked == Some(control) && up && coarse == shift,
            _ => false,
        },
{
}

/// With the command key held, only the files are shown or hidden and changes
/// saved, where there are any; without it, keys do what they do while nothing
/// is typed or asked.
pub proof fn the_command_key_shows_files_and_saves(key: Key, shift: bool, at: Scene)
    requires
        !at.asking,
    ensures
        key == Key::B ==> deed_of(key, shift, true, at) == Deed::ShowFiles,
        key == Key::S ==> deed_of(key, shift, true, at) == if at.dirty {
            Deed::Save
        } else {
            Deed::Nothing
        },
        key != Key::B && key != Key::S ==> deed_of(key, shift, true, at) == Deed::Nothing,
        deed_of(key, shift, false, at) != Deed::Save && deed_of(key, shift, false, at)
            != Deed::ShowFiles,
        key == Key::Escape && at.renaming ==> deed_of(key, shift, false, at) == Deed::KeepName,
        !at.typing && !at.renaming && key == Key::Escape && at.loaded ==> deed_of(
            key,
            shift,
            false,
            at,
        ) == if at.picked is Some {
            Deed::LetGo
        } else {
            Deed::ClearSelection
        },
        !at.typing && key == Key::Space ==> deed_of(key, shift, false, at) == if at.loaded
            || at.loading {
            Deed::TogglePlay
        } else {
            Deed::Nothing
        },
        !at.typing && at.loaded && key == Key::Home ==> deed_of(key, shift, false, at)
            == Deed::SeekStart,
        !at.typing && at.loaded && key == Key::End ==> deed_of(key, shift, false, at)
            == Deed::SeekEnd,
        !at.typing && at.loaded && (key == Key::Plus || key == Key::Equals) ==> deed_of(
            key,
            shift,
            false,
            at,
        ) == Deed::ZoomIn,
        !at.typing && at.loaded && key == Key::Minus ==> deed_of(key, shift, false, at)
            == Deed::ZoomOut,
        !at.typing && at.loaded && key == Key::F ==> deed_of(key, shift, false, at) == Deed::Fit,
        !at.typing && at.loaded && key == Key::S ==> deed_of(key, shift, false, at)
            == Deed::ZoomToSelection,
        !at.typing && key == Key::Backspace ==> deed_of(key, shift, false, at) == if at.picked
            == Some(Control::Explorer) {
            Deed::GoUp
        } else {
            Deed::Nothing
        },
        !at.typing && at.picked == Some(Control::Explorer) && (key == Key::Up || key == Key::Down)
            ==> deed_of(key, shift, false, at) == (Deed::Step { down: key == Key::Down }),
{
}

/// What fills the middle is the pictures that are switched on, or what is
/// beside them where none is.
pub proof fn the_middle_shows_what_is_on(v: Views)
    ensures
        v.middle() == Middle::Both <==> v.spectrogram && v.waveform,
        v.middle() == Middle::Spectrogram <==> v.spectrogram && !v.waveform,
        v.middle() == Middle::Waveform <==> v.waveform && !v.spectrogram,
        v.middle() == Middle::Nothing <==> !v.spectrogram && !v.waveform && !v.spectrum
            && !v.markers && !v.metadata && !v.rename,
        v.side(true).contains(Beside::Spectrum) <==> v.spectrum,
        v.side(true).contains(Beside::Markers) <==> v.markers,
        v.side(true).contains(Beside::Metadata) <==> v.metadata,
        v.side(true).contains(Beside::Rename) <==> v.rename,
        v.side(false).len() <= 1,
        v.rename ==> v.side(false) == seq![Beside::Rename],
{
    let (a, b, c, d) = (
        v.one(Beside::Spectrum),
        v.one(Beside::Markers),
        v.one(Beside::Metadata),
        v.one(Beside::Rename),
    );
    let all = a + b + c + d;
    assert(v.side(true) == all);
    if v.spectrum {
        assert(all[0] == Beside::Spectrum);
    }
    if v.markers {
        assert(all[a.len() as int] == Beside::Markers);
    }
    if v.metadata {
        assert(all[(a.len() + b.len()) as int] == Beside::Metadata);
    }
    if v.rename {
        assert(all[(a.len() + b.len() + c.len()) as int] == Beside::Rename);
    }
    assert forall|i: int| 0 <= i < all.len() implies v.on(#[trigger] all[i]) by {}
}

/// A mark that is moved goes to the frame it was dragged to, as far as the file
/// has room for it, and no other mark moves.
pub proof fn only_the_dragged_mark_moves(
    before: Seq<MarkerView>,
    m: MarkerView,
    after: Seq<MarkerView>,
    frame: usize,
    frames: usize,
)
    requires
        forall|i: int| 0 <= i < before.len() ==> (#[trigger] before[i]).id != m.id,
    ensures
        ({
            let moved = with_moved(before + seq![m] + after, m.id, frame, frames);
            let k = before.len() as int;
            &&& moved.len() == before.len() + 1 + after.len()
            &&& moved.take(k) == before && moved.skip(k + 1) == after
            &&& moved[k].id == m.id && moved[k].length == m.length && moved[k].label == m.label
                && moved[k].note == m.note
            &&& frame + m.length <= frames ==> moved[k].frame == frame
            &&& m.length <= frames < frame + m.length ==> moved[k].frame + m.length == frames
            &&& m.length > frames ==> moved[k].frame == 0
        }),
    decreases before.len(),
{
    let all = before + seq![m] + after;
    let k = before.len() as int;
    let moved = with_moved(all, m.id, frame, frames);
    if k > 0 {
        let rest = before.skip(1);
        assert forall|i: int| 0 <= i < rest.len() implies (#[trigger] rest[i]).id != m.id by {
            assert(rest[i] == before[i + 1]);
        }
        only_the_dragged_mark_moves(rest, m, after, frame, frames);
        assert(all[0] == before[0]);
        assert(all.skip(1) =~= rest + seq![m] + after);
        let inner = with_moved(rest + seq![m] + after, m.id, frame, frames);
        assert(moved == seq![before[0]] + inner);
        assert(before =~= seq![before[0]] + rest);
        assert(moved.take(k) =~= seq![before[0]] + inner.take(k - 1));
        assert(moved.skip(k + 1) =~= inner.skip(k));
        assert(moved[k] == inner[k - 1]);
    } else {
        assert(all[0] == m);
        assert(all.skip(1) =~= after);
        assert(moved.take(0) =~= before);
        assert(moved.skip(1) =~= after);
    }
}

/// A save ends: it is no longer under way, and where it failed it says so and
/// nothing that waited for it goes ahead.
pub proof fn a_save_ends(s: SessionView, why: Seq<char>)
    ensures
        !s.saved(s.generation, None).saving,
        s.saved(s.generation, None).save_error == s.save_error,
        s.saved(s.generation, None).waiting == s.waiting,
        !s.saved(s.generation, Some(why)).saving,
        s.saved(s.generation, Some(why)).waiting is None,
        s.saved(s.generation, Some(why)).save_error matches Some(said) && said.skip(
            said.len() - why.len(),
        ) == why,
        s.saved(s.generation, Some(why)).file == s.file,
{
    let said = "Not saved: "@ + why;
    assert(said.skip(said.len() - why.len()) =~= why);
}

/// An analysis that is asked for has a number of its own, and its result is put
/// where it was asked for.
pub proof fn a_result_goes_where_it_was_asked_for(s: SessionView, whole: bool)
    requires
        s.jobs < u64::MAX,
        s.whole_job matches Some(id) ==> id <= s.jobs,
        s.detail_job matches Some(id) ==> id <= s.jobs,
    ensures
        ({
            let next = s.analysing(whole);
            &&& next.jobs != s.jobs
            &&& next.slot(s.generation, next.jobs) == if whole {
                Slot::Whole
            } else {
                Slot::Detail
            }
            &&& whole ==> next.detail_job == s.detail_job
            &&& !whole ==> next.whole_job == s.whole_job
            &&& next.analysed(s.generation, next.jobs, None).error == s.error
            &&& next.slot((s.generation + 1) as u64, next.jobs) == Slot::Stale || s.generation
                == u64::MAX
        }),
{
}

/// What is said of a recording under its name, one thing after another: what it
/// is, what is done to it, who made it and when.
pub proof fn what_is_said_of_a_recording(
    info: InfoView,
    bits: u16,
    rate: Seq<char>,
    length: Seq<char>,
    expansion: Seq<char>,
    pitch: Seq<char>,
    recorder: Seq<char>,
    date: Seq<char>,
    time: Seq<char>,
)
    requires
        info.bits == Some(bits),
    ensures
        summary_parts(
            info,
            rate,
            length,
            Some(expansion),
            Some(pitch),
            Some(recorder),
            Some(date),
            Some(time),
        ) == seq![
            info.container,
            rate + "Hz"@,
            digits_of(bits as nat) + "-bit"@,
            digits_of(info.channels as nat) + " ch"@,
            length,
            "time expanded ×"@ + expansion,
            "pitch "@ + pitch + " semitones"@,
            recorder,
            date + seq![' '] + time,
        ],
        summary_parts(info, rate, length, None, None, None, Some(date), None) == seq![
            info.container,
            rate + "Hz"@,
            digits_of(bits as nat) + "-bit"@,
            digits_of(info.channels as nat) + " ch"@,
            length,
        ],
        summary_parts(info, rate, length, None, None, None, None, Some(time)).last() == time,
{
    let all = summary_parts(
        info,
        rate,
        length,
        Some(expansion),
        Some(pitch),
        Some(recorder),
        Some(date),
        Some(time),
    );
    assert(all.len() == 9);
    assert(all =~= seq![
        info.container,
        rate + "Hz"@,
        digits_of(bits as nat) + "-bit"@,
        digits_of(info.channels as nat) + " ch"@,
        length,
        "time expanded ×"@ + expansion,
        "pitch "@ + pitch + " semitones"@,
        recorder,
        date + seq![' '] + time,
    ]);
    assert(summary_parts(info, rate, length, None, None, None, Some(date), None) =~= seq![
        info.container,
        rate + "Hz"@,
        digits_of(bits as nat) + "-bit"@,
        digits_of(info.channels as nat) + " ch"@,
        length,
    ]);
}

/// Playback starts inside the file, at the cursor where that is inside it, and
/// only in a file that holds something.
pub proof fn playback_starts_in_the_file(s: SessionView)
    ensures
        s.plays_from() matches Some(p) ==> s.frames matches Some(n) && p < n,
        s.plays_from() is None <==> s.frames is None || s.frames == Some(0usize),
        s.cursor matches Some(c) ==> s.frames matches Some(n) ==> c < n ==> s.plays_from() == Some(
            c,
        ),
        s.cursor matches Some(c) ==> s.frames matches Some(n) ==> 0 < n <= c ==> s.plays_from()
            == Some(0usize),
        s.cursor is None && s.plays_from() is Some ==> s.plays_from() == Some(0usize),
{
}

/// What is stopped plays from the start of the selection, or of the file where
/// there is none, and nothing else is changed by it.
pub proof fn what_is_stopped_starts_over(s: SessionView)
    ensures
        ({
            let t = s.stopped();
            &&& (SessionView { cursor: s.cursor, ..t }) == s
            &&& s.frames is None ==> t == s
            &&& s.selection is None && s.plays_from() is Some ==> t.plays_from() == Some(0usize)
            &&& s.selection matches Some(x) ==> s.frames matches Some(n) ==> x.start < n
                ==> t.plays_from() == Some(x.start)
            &&& s.frames is Some ==> t.cursor == Some(s.home())
            &&& t.stopped() == t
        }),
{
}

/// A new selection plays from its start and is gone back to; clearing it leaves
/// playback where it was.
pub proof fn a_selection_plays_from_its_start(s: SessionView, x: Span)
    ensures
        ({
            let t = s.selected(Some(x));
            &&& t.selection == Some(x) && t.home() == x.start
            &&& s.frames matches Some(n) ==> x.start < n ==> t.plays_from() == Some(x.start)
            &&& s.frames is Some ==> t.stopped() == t
            &&& (SessionView { selection: s.selection, cursor: s.cursor, ..t }) == s
        }),
        ({
            let t = s.selected(None);
            &&& t.selection is None && t.home() == 0
            &&& t.plays_from() == s.plays_from()
            &&& (SessionView { selection: s.selection, ..t }) == s
        }),
{
}

/// While a file loads, asking for it to play turns that on and asking again off;
/// else nothing is changed.
pub proof fn asking_twice_takes_it_back(s: SessionView)
    ensures
        s.toggled_while_loading().toggled_while_loading() == s,
        s.loading && s.frames is None ==> s.toggled_while_loading().play_when_loaded
            != s.play_when_loaded,
        !s.loading || s.frames is Some ==> s.toggled_while_loading() == s,
        (SessionView { play_when_loaded: s.play_when_loaded, ..s.toggled_while_loading() }) == s,
{
}

} // verus!
