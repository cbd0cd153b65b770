use soundcheck::edit::Edits;
use soundcheck::playback::Span;
use soundcheck::session::{
    channel_name, new_name, offered_fft, percent, target_name, After, Answer, Colormap, Control,
    Effect, Picking, Session, Slot,
};
use soundcheck::spectrogram::Target;
use soundcheck::wav::parse;

fn loaded(path: &str, frames: usize) -> Session {
    let mut s = Session::default();
    assert_eq!(s.request_open(path, false, false), Effect::Load);
    let generation = s.generation;
    assert_eq!(s.load_done(generation, frames, None), (true, false));
    s
}

#[test]
fn unsaved_changes_are_asked_about_first() {
    let mut s = loaded("/f/a.wav", 10);
    assert_eq!(s.request_open("/f/b.wav", true, false), Effect::Nothing);
    assert_eq!(s.asking, Some(After::Open("/f/b.wav".into())));
    assert_eq!(s.file.as_deref(), Some("/f/a.wav"));
    s.answer(Answer::Cancel);
    assert_eq!((&s.asking, &s.waiting), (&None, &None));
    assert_eq!(s.quit(true), Effect::Nothing);
    assert_eq!(s.asking, Some(After::Quit));
    s.answer(Answer::Discard);
    assert_eq!(s.go_ahead(false, false), Effect::Close);
    assert!(s.quitting);
}

#[test]
fn what_waits_for_a_save_goes_ahead_when_it_is_done() {
    let mut s = loaded("/f/a.wav", 10);
    assert!(s.save());
    assert!(!s.save());
    assert_eq!(s.request_open("/f/b.wav", false, false), Effect::Nothing);
    let generation = s.generation;
    assert!(s.save_done(generation, None));
    assert_eq!(s.go_ahead(false, false), Effect::Load);
    assert_eq!(s.file.as_deref(), Some("/f/b.wav"));
}

#[test]
fn a_save_that_fails_stops_what_waited_for_it() {
    let mut s = loaded("/f/a.wav", 10);
    s.save();
    s.quit(false);
    let generation = s.generation;
    s.save_done(generation, Some("denied".into()));
    assert_eq!(s.save_error.as_deref(), Some("Not saved: denied"));
    assert_eq!(s.waiting, None);
    assert_eq!(s.go_ahead(false, false), Effect::Nothing);
}

#[test]
fn results_for_another_file_are_dropped() {
    let mut s = loaded("/f/a.wav", 10);
    let earlier = s.generation;
    s.request_open("/f/b.wav", false, false);
    assert_eq!(s.load_done(earlier, 99, None), (false, false));
    assert!(s.loading);
    let now = s.generation;
    s.load_done(now, 0, Some("broken".into()));
    assert_eq!(s.error.as_deref(), Some("broken"));
    assert_eq!(s.frames, None);
}

#[test]
fn only_the_newest_analysis_counts() {
    let mut s = loaded("/f/a.wav", 10);
    let generation = s.generation;
    let first = s.analyse(true);
    let second = s.analyse(true);
    let detail = s.analyse(false);
    assert_eq!(s.analysis_done(generation, first, None), Slot::Stale);
    assert_eq!(s.analysis_done(generation, second, None), Slot::Whole);
    assert_eq!(s.analysis_done(generation, detail, None), Slot::Detail);
    assert_eq!(s.analysis_done(generation, detail, None), Slot::Stale);
}

#[test]
fn a_file_left_while_playing_is_followed_by_one_that_plays() {
    let mut s = loaded("/f/a.wav", 10);
    s.request_open("/f/b.wav", false, true);
    let generation = s.generation;
    assert_eq!(s.load_done(generation, 5, None), (true, true));
    let mut s = Session::default();
    s.request_open("/f/c.wav", false, false);
    assert!(s.toggle_while_loading());
    let generation = s.generation;
    assert_eq!(s.load_done(generation, 5, None), (true, true));
    assert!(!s.toggle_while_loading());
}

#[test]
fn playback_starts_at_the_cursor_and_stops_at_the_selection() {
    let mut s = loaded("/f/a.wav", 100);
    assert_eq!(s.play_from(), Some(0));
    assert_eq!(s.seek(40), 40);
    assert_eq!(s.play_from(), Some(40));
    assert_eq!(s.seek(400), 100);
    assert_eq!(s.play_from(), Some(0));
    assert!(!s.select(None));
    assert!(s.select(Some(Span { start: 7, end: 9 })));
    assert_eq!(s.stop(), 7);
    assert_eq!(s.cursor, Some(7));
    assert_eq!(Session::default().play_from(), None);
}

#[test]
fn a_batch_carries_the_open_file_along() {
    let s = loaded("/f/a.wav", 10);
    let moved = vec![("/f/a.wav".to_owned(), "/f/b.wav".to_owned())];
    assert_eq!(s.bulk(&moved).unwrap().as_deref(), Some("/f/b.wav"));
    let other = vec![("/f/x.wav".to_owned(), "/f/y.wav".to_owned())];
    assert_eq!(s.bulk(&other), Ok(None));
    let mut busy = loaded("/f/a.wav", 10);
    busy.save();
    assert!(busy.bulk(&moved).is_err());
}

fn edits() -> Edits {
    let mut f = b"RIFF\x28\0\0\0WAVEfmt \x10\0\0\0".to_vec();
    f.extend([1, 0, 1, 0]);
    f.extend(48_000u32.to_le_bytes());
    f.extend(96_000u32.to_le_bytes());
    f.extend([2, 0, 16, 0]);
    f.extend(b"data\x04\0\0\0\x01\x02\x03\x04");
    Edits::from_wav(&parse(&f).unwrap())
}

#[test]
fn a_mark_goes_where_the_selection_or_the_cursor_is() {
    let mut s = loaded("/f/a.wav", 100);
    let mut e = edits();
    s.seek(40);
    assert_eq!(s.add_marker(&mut e), Some(1));
    assert_eq!((e.markers[0].frame, e.markers[0].length), (40, 0));
    s.select(Some(Span { start: 7, end: 9 }));
    assert_eq!(s.add_marker(&mut e), Some(2));
    assert_eq!((e.markers[0].frame, e.markers[0].length), (7, 2));
    s.save();
    assert_eq!(s.add_marker(&mut e), None);
    assert_eq!(e.markers.len(), 2);
}

#[test]
fn a_control_is_picked_and_let_go_by_clicks() {
    let mut p = Picking {
        picked: None,
        unpick_on_click: false,
    };
    p.point(true, Some(Control::Gain), false, false);
    assert_eq!(p.picked, Some(Control::Gain));
    p.point(false, Some(Control::Gain), false, true);
    assert_eq!(p.picked, Some(Control::Gain));
    p.point(true, Some(Control::Gain), false, false);
    p.point(false, Some(Control::Gain), false, true);
    assert_eq!(p.picked, None);
}

#[test]
fn names_are_given() {
    assert_eq!(new_name("/f/a.wav", "b").as_deref(), Some("b.wav"));
    assert_eq!(new_name("/f/a.wav", "a"), None);
    assert_eq!(target_name(Target::Mix, None), "Mix");
    assert!(channel_name(1, Some("Right")).contains("Right"));
    assert!(channel_name(1, None).contains('2'));
    assert_eq!(Colormap::Turbo.name(), "Turbo");
    assert_eq!(Colormap::ALL.len(), 5);
}

#[test]
fn only_window_sizes_on_offer_are_taken() {
    assert_eq!(offered_fft(4096), 4096);
    assert_eq!(offered_fft(1000), 2048);
    assert_eq!(percent(735), 73);
}

#[test]
fn a_file_let_go_of_is_picked_up_where_it_was() {
    let mut s = loaded("/f/a.wav", 10);
    assert_eq!(s.analyse(true), 1);
    let released = s.release(true);
    assert!(released.whole && released.detail);
    assert_eq!((s.whole_job, s.detail_job), (None, None));
    assert_eq!(s.analysis_done(s.generation, 1, None), Slot::Stale);
    let again = s.release(false);
    assert!(!again.whole && !again.detail);
    s.moved("/f/b.wav");
    assert_eq!(s.file.as_deref(), Some("/f/b.wav"));
    assert_eq!(s.frames, Some(10));
}

#[test]
fn nothing_is_picked_at_first() {
    let p = Picking::default();
    assert_eq!((p.picked, p.unpick_on_click), (None, false));
}
