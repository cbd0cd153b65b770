use soundcheck::audio::Info;
use soundcheck::screen::{
    buttons, channels_shown, deed, meter_labels, move_marker, summary, Beside, Deed, Key, Middle,
    Scene, Views,
};
use soundcheck::session::{Control, Effect, Session};
use soundcheck::spectrogram::Channels;
use soundcheck::wav::Marker;

const OPEN: Scene = Scene {
    asking: false,
    dirty: false,
    renaming: false,
    typing: false,
    picked: None,
    loaded: true,
    loading: false,
};

const KEYS: [Key; 17] = [
    Key::Backspace,
    Key::Up,
    Key::Down,
    Key::Left,
    Key::Right,
    Key::Space,
    Key::Home,
    Key::End,
    Key::Plus,
    Key::Equals,
    Key::Minus,
    Key::Escape,
    Key::B,
    Key::F,
    Key::M,
    Key::R,
    Key::S,
];

#[test]
fn keys_move_through_a_file() {
    let plain = |key| deed(key, false, false, OPEN);
    let shifted = |key| deed(key, true, false, OPEN);
    assert_eq!(plain(Key::Left), Deed::SeekBy(-1));
    assert_eq!(plain(Key::Right), Deed::SeekBy(1));
    assert_eq!(shifted(Key::Left), Deed::SeekBy(-10));
    assert_eq!(shifted(Key::Right), Deed::SeekBy(10));
    assert_eq!(plain(Key::Up), Deed::Brighten(5));
    assert_eq!(plain(Key::Down), Deed::Brighten(-5));
    assert_eq!(plain(Key::Home), Deed::SeekStart);
    assert_eq!(plain(Key::End), Deed::SeekEnd);
    assert_eq!(plain(Key::Plus), Deed::ZoomIn);
    assert_eq!(plain(Key::Equals), Deed::ZoomIn);
    assert_eq!(plain(Key::Minus), Deed::ZoomOut);
    assert_eq!(plain(Key::F), Deed::Fit);
    assert_eq!(plain(Key::S), Deed::ZoomToSelection);
    assert_eq!(plain(Key::M), Deed::AddMarker);
    assert_eq!(plain(Key::Space), Deed::TogglePlay);
    assert_eq!(plain(Key::Escape), Deed::ClearSelection);
    assert_eq!(plain(Key::B), Deed::Nothing);
    assert_eq!(plain(Key::Backspace), Deed::Nothing);
}

#[test]
fn keys_move_what_is_picked() {
    let at = |picked| Scene { picked: Some(picked), ..OPEN };
    let gain = at(Control::Gain);
    assert_eq!(
        deed(Key::Up, true, false, gain),
        Deed::Nudge { control: Control::Gain, up: true, coarse: true }
    );
    assert_eq!(
        deed(Key::Left, false, false, gain),
        Deed::Nudge { control: Control::Gain, up: false, coarse: false }
    );
    assert_eq!(deed(Key::Escape, false, false, gain), Deed::LetGo);
    let timeline = at(Control::Timeline);
    assert_eq!(
        deed(Key::Right, false, false, timeline),
        Deed::Pan { forward: true, all: false }
    );
    assert_eq!(
        deed(Key::Down, true, false, timeline),
        Deed::Size { wider: false, twice: true }
    );
    let explorer = at(Control::Explorer);
    assert_eq!(deed(Key::Down, false, false, explorer), Deed::Step { down: true });
    assert_eq!(deed(Key::Up, false, false, explorer), Deed::Step { down: false });
    assert_eq!(deed(Key::Backspace, false, false, explorer), Deed::GoUp);
    assert_eq!(deed(Key::Left, false, false, explorer), Deed::SeekBy(-1));
}

#[test]
fn r_resets_one_slider_or_all() {
    let picked = Scene { picked: Some(Control::Pitch), ..OPEN };
    assert_eq!(deed(Key::R, false, false, picked), Deed::Reset(Control::Pitch));
    assert_eq!(deed(Key::R, true, false, picked), Deed::ResetAll);
    assert_eq!(deed(Key::R, false, false, OPEN), Deed::Nothing);
}

#[test]
fn a_question_takes_the_keys() {
    let asking = Scene { asking: true, dirty: true, ..OPEN };
    for key in KEYS {
        for command in [false, true] {
            assert_eq!(deed(key, false, command, asking), Deed::Nothing);
        }
    }
}

#[test]
fn typing_keeps_its_keys() {
    let typing = Scene { typing: true, renaming: true, dirty: true, ..OPEN };
    for key in KEYS {
        let expected = if key == Key::Escape { Deed::KeepName } else { Deed::Nothing };
        assert_eq!(deed(key, false, false, typing), expected);
    }
    assert_eq!(deed(Key::B, false, true, typing), Deed::ShowFiles);
    assert_eq!(deed(Key::S, false, true, typing), Deed::Save);
    assert_eq!(deed(Key::S, false, true, OPEN), Deed::Nothing);
}

#[test]
fn without_a_file_few_keys_act() {
    let none = Scene { loaded: false, ..OPEN };
    for key in KEYS {
        assert_eq!(deed(key, false, false, none), Deed::Nothing);
    }
    let loading = Scene { loaded: false, loading: true, ..OPEN };
    assert_eq!(deed(Key::Space, false, false, loading), Deed::TogglePlay);
    assert_eq!(deed(Key::M, false, false, loading), Deed::Nothing);
}

#[test]
fn views_have_their_places() {
    let views = Views::default();
    let layout = views.layout(true);
    assert_eq!(layout.middle, Middle::Both);
    assert!(layout.panel && layout.meters && layout.timeline);
    assert_eq!(layout.side, [Beside::Spectrum, Beside::Markers]);
    let before = views.layout(false);
    assert_eq!(before.side, [Beside::Spectrum]);
    assert!(!before.meters && !before.timeline);
}

#[test]
fn renaming_needs_no_file() {
    let views = Views { rename: true, ..Views::default() };
    assert_eq!(views.layout(false).side, [Beside::Rename]);
    assert_eq!(
        views.layout(true).side,
        [Beside::Spectrum, Beside::Markers, Beside::Rename]
    );
}

#[test]
fn the_middle_is_never_empty_without_a_word() {
    let none = Views {
        spectrogram: false,
        waveform: false,
        spectrum: false,
        markers: false,
        metadata: false,
        timeline: false,
        meters: false,
        rename: false,
    };
    assert_eq!(none.layout(true).middle, Middle::Nothing);
    let side = Views { metadata: true, ..none };
    let layout = side.layout(true);
    assert_eq!((layout.middle, layout.panel), (Middle::Side, false));
    assert_eq!(layout.side, [Beside::Metadata]);
    let wave = Views { waveform: true, ..none };
    assert_eq!(wave.layout(true).middle, Middle::Waveform);
    let spectrogram = Views { spectrogram: true, ..side };
    let layout = spectrogram.layout(true);
    assert_eq!((layout.middle, layout.panel), (Middle::Spectrogram, true));
}

#[test]
fn buttons_offer_what_can_be_done() {
    let mut s = Session::default();
    let none = buttons(&s, false, false);
    assert!(!none.play && !none.stop && !none.mark && !none.pause && !none.rename);
    assert_eq!(s.request_open("/f/a.wav", false, true), Effect::Load);
    let loading = buttons(&s, false, false);
    assert!(loading.play && loading.pause && !loading.stop);
    let generation = s.generation;
    assert_eq!(s.load_done(generation, 10, None), (true, true));
    let loaded = buttons(&s, false, true);
    assert!(loaded.play && loaded.stop && loaded.mark && loaded.zoom && loaded.rename);
    assert!(!loaded.pause && !loaded.selection);
    assert!(s.save());
    let saving = buttons(&s, true, true);
    assert!(saving.pause && !saving.mark && !saving.rename);
}

#[test]
fn a_file_is_summed_up_in_a_line() {
    let info = Info {
        container: "WAV".into(),
        sample_rate: 96_000,
        channels: 2,
        bits: Some(24),
        frames: 96_000,
        bytes: 1000,
    };
    assert_eq!(
        summary(&info, "96k", "0:01", None, None, None, None, None),
        "WAV  ·  96kHz  ·  24-bit  ·  2 ch  ·  0:01"
    );
    assert_eq!(
        summary(
            &Info { bits: None, ..info },
            "96k",
            "0:01",
            Some("10"),
            Some("-12"),
            Some("MixPre"),
            Some("2026-04-03"),
            Some("07:14:05"),
        ),
        "WAV  ·  96kHz  ·  2 ch  ·  0:01  ·  time expanded ×10  ·  pitch -12 semitones  ·  MixPre  ·  2026-04-03 07:14:05"
    );
}

#[test]
fn meters_are_numbered() {
    assert_eq!(meter_labels(1), ["M"]);
    assert_eq!(meter_labels(3), ["1", "2", "3"]);
    assert!(meter_labels(0).is_empty());
}

#[test]
fn the_channels_shown_are_named() {
    let names: Vec<String> = vec!["1 · boom".into(), "2".into()];
    assert_eq!(channels_shown(Channels::Mix, 2, &names), "Mix");
    assert_eq!(channels_shown(Channels::All, 2, &names), "All");
    assert_eq!(channels_shown(Channels::One(0), 2, &names), "1 · boom");
    assert_eq!(channels_shown(Channels::One(5), 2, &names), "Mix");
    assert_eq!(channels_shown(Channels::All, 1, &names), "Mix");
}

#[test]
fn a_dragged_marker_stays_within_the_file() {
    let marker = |id, frame, length| Marker {
        id,
        frame,
        length,
        label: "x".into(),
        note: String::new(),
    };
    let mut markers = vec![marker(1, 5, 0), marker(2, 10, 20), marker(2, 30, 0)];
    move_marker(&mut markers, 2, 95, 100);
    assert_eq!(markers, [marker(1, 5, 0), marker(2, 80, 20), marker(2, 30, 0)]);
    move_marker(&mut markers, 1, 40, 100);
    assert_eq!(markers[0], marker(1, 40, 0));
    move_marker(&mut markers, 7, 0, 100);
    assert_eq!(markers.len(), 3);
    move_marker(&mut markers, 2, 95, 10);
    assert_eq!(markers[1].frame, 0);
}
