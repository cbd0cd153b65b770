use soundcheck::levels::Levels;
use soundcheck::probe::{reads, Desk, Job, Request};
use soundcheck::spectrogram::{
    let_go, probe_centres, probe_extent, ready, stretch, window, Channels, Frames, Plan, Spec,
    Target, MAX_COLUMNS,
};

const FLOOR_DB: f32 = -100.0;

fn db(amplitude: f32) -> f32 {
    (20.0 * amplitude.log10()).max(FLOOR_DB)
}

/// The level of one channel, in decibels, mean and peak.
fn level(levels: &Levels<[f32; 2]>, channel: usize, frame: usize, span: usize) -> (f32, f32) {
    let (first, last) = levels.blocks_at(frame, span);
    let stats = levels.of_channel(channel, first, last);
    let peak = stats.iter().fold(0.0f32, |p, s| p.max(s[0]));
    let energy: f32 = stats.iter().map(|s| s[1]).sum();
    (db((energy / stats.len().max(1) as f32).sqrt()), db(peak))
}

#[test]
fn levels_are_per_channel_and_follow_time() {
    // One second of stereo: the left a full-scale square wave, the right
    // silent until a half-scale half second at the end.
    let mut samples: Vec<f32> = Vec::new();
    for i in 0..48_000 {
        samples.push(if i % 2 == 0 { 1.0 } else { -1.0 });
        samples.push(if i >= 24_000 { 0.5 } else { 0.0 });
    }
    let mut levels: Levels<[f32; 2]> = Levels::new(48_000, 2);
    for block in samples.chunks(levels.block * 2) {
        let mut stats = [[0.0f32; 2]; 2];
        for (c, stat) in stats.iter_mut().enumerate() {
            for s in block.iter().skip(c).step_by(2) {
                stat[0] = stat[0].max(s.abs());
                stat[1] += s * s / (block.len() / 2) as f32;
            }
        }
        levels.push(&stats);
    }
    let start = level(&levels, 0, 4_800, 4_800);
    assert_eq!(start.1, 0.0);
    assert!(start.0.abs() < 0.01);
    assert_eq!(level(&levels, 1, 4_800, 4_800).1, FLOOR_DB);
    let end = level(&levels, 1, 47_999, 4_800);
    assert!((end.1 - db(0.5)).abs() < 0.01);
    assert!((end.0 - db(0.5)).abs() < 0.01);
}

#[test]
fn levels_of_nothing_are_none() {
    let levels: Levels<u8> = Levels::new(10, 2);
    assert_eq!(levels.block, 1);
    assert_eq!(levels.blocks_at(7, 3), (0, 0));
    assert!(levels.of_channel(1, 0, 0).is_empty());
}

#[test]
fn channels_are_analysed_apart_or_mixed() {
    assert_eq!(Channels::Mix.targets(2), [Target::Mix]);
    assert_eq!(
        Channels::All.targets(2),
        [Target::Channel(0), Target::Channel(1)]
    );
    assert_eq!(Channels::One(1).targets(2), [Target::Channel(1)]);
    assert_eq!(Channels::One(9).targets(2), [Target::Mix]);
    assert_eq!(Channels::All.targets(1), [Target::Mix]);
}

fn spec(fft: usize) -> Spec {
    Spec {
        fft,
        channels: Channels::Mix,
    }
}

#[test]
fn a_plan_has_a_column_to_each_frame_or_as_many_as_there_are() {
    let short = Plan::new(spec(1024), Frames { start: 0, end: 10 }, 48_000);
    assert_eq!(short.columns, 10);
    assert_eq!(short.bins, 513);
    let long = Plan::new(
        spec(1024),
        Frames {
            start: 0,
            end: 480_000_000,
        },
        480_000_000,
    );
    assert_eq!(long.columns, MAX_COLUMNS);
    assert!(long.windows * 512 * long.columns >= 480_000_000);
    let zoomed = Plan::new(
        spec(4096),
        Frames {
            start: 20_000,
            end: 21_000,
        },
        48_000,
    );
    let wanted = zoomed.wanted();
    assert!(wanted.start <= 20_000 - 2048 && wanted.end >= 21_000 + 2048);
    let edge = Plan::new(spec(4096), Frames { start: 0, end: 500 }, 600).wanted();
    assert_eq!((edge.start, edge.end), (0, 600));
}

#[test]
fn columns_wait_for_their_frames() {
    assert_eq!(ready(&[10, 20, 30], 0, 20, false), 2);
    assert_eq!(ready(&[10, 20, 30], 1, 5, false), 1);
    assert_eq!(ready(&[10, 20, 30], 1, 5, true), 3);
    assert_eq!(let_go(50, 40, 30), 10);
    assert_eq!(let_go(90, 40, 30), 30);
    assert_eq!(let_go(30, 40, 30), 0);
    assert!((11..=100).contains(&stretch(10, 50, 100)));
}

#[test]
fn windows_past_the_ends_are_silent_there() {
    assert_eq!(window(&[1, 2, 3], 0, 4, 0), [0, 0, 1, 2]);
    assert_eq!(window(&[1, 2, 3], 2, 4, 9), [1, 2, 3, 9]);
}

#[test]
fn a_probe_looks_about_its_frame() {
    let centres = probe_centres(10_000, 2048);
    assert_eq!(centres.len(), 8);
    let extent = probe_extent(2048);
    assert!(centres
        .iter()
        .all(|&c| c + extent >= 10_000 && c <= 10_000 + extent));
}

#[test]
fn the_last_request_for_a_probe_wins() {
    let ask = |frame| Request {
        frame,
        fft: 2048,
        channels: Channels::All,
    };
    let mut desk = Desk::new();
    assert_eq!(desk.next(), Job::Wait);
    desk.ask(ask(1));
    desk.ask(ask(2));
    assert_eq!(desk.next(), Job::Work(ask(2)));
    assert_eq!(desk.next(), Job::Wait);
    desk.ask(ask(3));
    desk.close();
    assert_eq!(desk.next(), Job::Quit);
    let (frames, at) = reads(ask(24_000), 30_000);
    assert!(frames.end <= 30_000 && frames.start + at == 24_000);
}
