use soundcheck::audio::{
    container, file_rows, pcm_read, place, Info, Length, Need, Pass, Placed, Queue, Source,
    Timeline, PARALLEL_FRAMES,
};
use soundcheck::wav::{parse, SampleKind};

#[test]
fn samples_are_whole_numbers_up_to_full_scale() {
    assert_eq!(SampleKind::U8.whole(&[0]), Some(-128));
    assert_eq!(SampleKind::U8.whole(&[255]), Some(127));
    assert_eq!(SampleKind::I16.whole(&[0, 0x80]), Some(-32_768));
    assert_eq!(SampleKind::I24.whole(&[0xFF, 0xFF, 0x7F]), Some(8_388_607));
    assert_eq!(SampleKind::I32.whole(&[0, 0, 0, 0x80]), Some(-2_147_483_648));
    assert_eq!(SampleKind::F32.whole(&[0, 0, 0, 0]), None);
    assert_eq!(SampleKind::I32.full_scale(), Some(0x8000_0000));
}

#[test]
fn containers_are_named_by_their_extension() {
    assert_eq!(container("/f/a.flac"), "FLAC");
    assert_eq!(container("/f/a"), "audio");
}

fn wave() -> Vec<u8> {
    let mut f = b"RIFF\x2C\0\0\0WAVEfmt \x10\0\0\0".to_vec();
    f.extend([1, 0, 2, 0]);
    f.extend(48_000u32.to_le_bytes());
    f.extend(192_000u32.to_le_bytes());
    f.extend([4, 0, 16, 0]);
    f.extend(b"data\x08\0\0\0");
    f.extend([1, 2, 3, 4, 5, 6, 7, 8]);
    f
}

#[test]
fn a_wave_file_is_its_own_source() {
    let file = wave();
    let w = parse(&file).unwrap();
    let info = Info::of_wav(&w, file.len() as u64);
    assert_eq!((info.container.as_str(), info.frames), ("WAV", 2));
    assert_eq!((info.bits, info.channels), (Some(16), 2));
    let source = Source::of_wav("/f/a.wav", &w);
    assert_eq!(
        source,
        Source::Pcm {
            path: "/f/a.wav".into(),
            start: 44,
            end: 52,
            kind: SampleKind::I16,
        }
    );
    assert!(matches!(
        source.with_path("/f/b.wav"),
        Source::Pcm { path, start: 44, .. } if path == "/f/b.wav"
    ));
    assert_eq!(
        Source::Coded("/a".into()).with_path("/b"),
        Source::Coded("/b".into())
    );
    let rows = file_rows("/f/a.wav", &info, "0.1", "0.00", false);
    assert_eq!(rows[0], ("Name".to_owned(), "a.wav".to_owned()));
    assert_eq!(rows[2].1, "0.1 MB");
    assert_eq!(rows[3].1, "WAV, 16-bit");
    assert_eq!(rows[6].1, "0.00 s, 2 frames");
}

#[test]
fn pcm_is_read_in_parts_that_join_up() {
    let frames = 3 * PARALLEL_FRAMES + 5;
    let read = pcm_read(44, 44 + 4 * frames as u64, 4, 7, frames);
    assert_eq!(read.available, frames - 7);
    let mut at = 0;
    for part in &read.parts {
        assert_eq!(part.at, at);
        assert_eq!(part.from, 44 + 4 * (7 + at) as u64);
        at += part.frames;
    }
    assert_eq!(at, read.available);
    assert!(read.parts.len() > 1);
    assert_eq!(pcm_read(44, 52, 4, 9, 5).available, 0);
    assert_eq!(pcm_read(44, 52, 4, 1, 5).available, 1);
}

#[test]
fn a_timeline_turns_ticks_into_frames_and_back() {
    let t = Timeline::new(100, 1, 1000, 48_000);
    assert_eq!(t.frame_of(1100), 48_000);
    assert_eq!(t.timestamp_of(48_000), 1100);
    assert_eq!(t.frame_of(50), 0);
    let frame = t.frame_of(t.timestamp_of(12_345));
    assert!(frame <= 12_345);
}

#[test]
fn packets_are_put_where_they_belong() {
    let first = place(None, 500, 100, 48_000);
    assert_eq!(
        first,
        Placed {
            start: 500,
            gap: 0,
            skip: 0,
            next: 600,
        }
    );
    let gap = place(Some(600), 650, 100, 48_000);
    assert_eq!((gap.start, gap.gap, gap.skip, gap.next), (600, 50, 0, 750));
    let overlap = place(Some(600), 560, 100, 48_000);
    assert_eq!((overlap.start, overlap.gap, overlap.skip), (600, 0, 40));
    assert_eq!(overlap.next, 660);
}

#[test]
fn a_queue_gives_frames_in_order_from_anywhere() {
    let mut q: Queue<i32> = Queue::new(2, 10);
    assert_eq!(q.need(0, 4), Need::Decode);
    q.push(0, 2, &[1, 2, 3, 4], 10, 0);
    assert_eq!(q.need(0, 2), Need::Ready(2));
    q.push(3, 2, &[7, 8], 10, 0);
    assert_eq!(q.take(1, 3), [3, 4, 0, 0, 7, 8]);
    assert_eq!(q.from, 4);
    assert_eq!(q.need(1, 2), Need::Seek);
    q.sought(1);
    assert_eq!(q.need(1, 2), Need::Decode);
    q.push(1, 1, &[5], 10, 0);
    q.end();
    assert_eq!(q.need(1, 2), Need::Ready(1));
    assert_eq!(q.take(1, 1).len(), 2);
}

#[test]
fn a_first_pass_tells_whether_the_file_is_as_long_as_it_says() {
    let mut pass = Pass::new(1000, 7);
    assert_eq!(pass.piece % 7, 0);
    assert_eq!(pass.length(), Length::Nothing);
    assert_eq!(pass.wanted(400, 300), 300);
    assert!(!pass.took(400));
    assert_eq!(pass.length(), Length::Other);
    assert!(!pass.took(600));
    assert_eq!(pass.length(), Length::AsPlanned);
    assert_eq!(pass.wanted(5, 300), 0);
}
