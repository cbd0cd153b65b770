use soundcheck::playback::{
    gather, keep, pack, speed_parts, stereo, unpack, Act, Command, Feeder, Reel, Restart, Span,
    Transport, FINISHED,
};
use soundcheck::wav::SampleKind;

#[test]
fn positions_pack_with_their_seek() {
    assert_eq!(unpack(pack(7, 123_456.9f64.max(0.0) as u64)), (7, 123_456));
    assert_eq!(
        unpack(pack(u16::MAX, (-3.0f64).max(0.0) as u64)),
        (u16::MAX, 0)
    );
}

/// Samples at full scale 1.
fn decoded(samples: &[i16]) -> Vec<f32> {
    let scale = SampleKind::I16.full_scale().unwrap() as f32;
    samples
        .iter()
        .map(|s| SampleKind::I16.whole(&s.to_le_bytes()).unwrap() as f32 / scale)
        .collect()
}

#[test]
fn mono_is_doubled_and_channels_past_two_are_left_out() {
    let mut out = Vec::new();
    stereo(&decoded(&[16_384, -16_384]), 1, &mut out);
    assert_eq!(out, [[0.5, 0.5], [-0.5, -0.5]]);

    let samples = [8_192, -8_192, 16_384, 0, 16_384, -16_384, 1, 2, 3];
    stereo(&decoded(&samples[3..]), 3, &mut out);
    assert_eq!(out[0], [0.0, 0.5]);
}

#[test]
fn a_seek_is_where_playback_is_until_it_is_acted_on() {
    let mut t = Transport::new(1000, 10);
    assert_eq!(t.position(0, pack(0, 55)), 55);
    let order = t.seek(400);
    assert_eq!(order, Restart { frame: 400, seek: 1, looping: None });
    assert_eq!(t.position(0, pack(0, 60)), 400);
    assert_eq!(t.position(0, pack(1, 450)), 450);
    assert_eq!(t.seek(5000).frame, 1000);
}

#[test]
fn playing_again_starts_over_once_it_has_ended() {
    let mut t = Transport::new(1000, 0);
    assert_eq!(t.play(0), None);
    assert!(!t.finished(0));
    let end = FINISHED;
    assert!(t.finished(end));
    let again = t.play(end).unwrap();
    assert_eq!((again.frame, again.seek), (0, 1));
    assert!(!t.finished(end));
}

#[test]
fn a_loop_starts_at_its_start_and_ends_where_playback_is() {
    let mut t = Transport::new(1000, 0);
    let range = Span { start: 100, end: 200 };
    assert_eq!(t.set_loop(Some(range), 150).frame, 100);
    assert_eq!(t.seek(150).frame, 150);
    assert_eq!(t.seek(200).frame, 100);
    let off = t.set_loop(None, 500);
    assert_eq!((off.frame, off.looping), (500, None));
    let empty = Span { start: 1000, end: 2000 };
    assert_eq!(t.set_loop(Some(empty), 500).looping, None);
}

#[test]
fn the_last_restart_counts_and_a_quit_ends_all() {
    let to = |frame| {
        Command::Restart(Restart {
            frame,
            seek: 1,
            looping: None,
        })
    };
    let last = gather(&[to(1), Command::Wake, to(2)]).unwrap().unwrap();
    assert_eq!(last.frame, 2);
    assert_eq!(gather(&[Command::Wake]), Some(None));
    assert_eq!(gather(&[to(1), Command::Quit]), None);
}

#[test]
fn the_feeder_marks_the_end_once_all_of_it_was_heard() {
    let mut feeder = Feeder::new();
    assert_eq!(feeder.next(512, 256, 1024, true), Act::Render);
    feeder.rendered(false);
    let Act::Wait { finished, .. } = feeder.next(512, 256, 1024, true) else {
        panic!("there is nothing more to render");
    };
    assert_eq!(finished, None);
    let Act::Wait { finished, .. } = feeder.next(1024, 256, 1024, true) else {
        panic!("there is nothing more to render");
    };
    assert!(finished.is_some());
    feeder.restarted(Restart {
        frame: 0,
        seek: 3,
        looping: None,
    });
    assert_eq!(feeder.next(1024, 256, 1024, true), Act::Render);
    assert_eq!((feeder.seek, feeder.drained), (3, false));
}

#[test]
fn a_loop_reads_its_range_over_and_over() {
    let mut reel = Reel {
        frames: 1000,
        next: 190,
        looping: Some(Span { start: 100, end: 200 }),
    };
    let reads = reel.take(250);
    let frames: Vec<usize> = reads
        .iter()
        .flat_map(|r| r.first..r.first + r.count)
        .collect();
    assert_eq!(frames.len(), 250);
    assert!(frames.iter().all(|f| (100..200).contains(f)));
    assert_eq!((frames[9], frames[10], frames[110]), (199, 100, 100));
    assert_eq!(reel.next, 140);
    assert_eq!(reads[1].at, 10);

    let mut plain = Reel {
        frames: 1000,
        next: 990,
        looping: None,
    };
    let reads = plain.take(50);
    assert_eq!(reads.iter().map(|r| r.count).sum::<usize>(), 10);
    assert_eq!(plain.next, 1040);
    assert!(plain.take(5).is_empty());
}

#[test]
fn what_a_filter_adds_in_front_is_dropped() {
    let mut skip = 30;
    let first = keep(20, &mut skip, Some(100));
    assert_eq!((first.dropped, first.kept, skip), (20, 0, 10));
    let second = keep(50, &mut skip, Some(25));
    assert_eq!((second.dropped, second.kept, skip), (10, 25, 0));
    assert_eq!(keep(50, &mut skip, None).kept, 50);
}

#[test]
fn a_typed_speed_is_a_number_or_a_fraction() {
    assert_eq!(speed_parts("2.5×"), ("2.5".into(), None));
    assert_eq!(speed_parts("x2.5"), ("2.5".into(), None));
    assert_eq!(speed_parts(" 5/2 "), ("5".into(), Some("2".into())));
    assert_eq!(speed_parts("1/10×"), ("1".into(), Some("10".into())));
}
