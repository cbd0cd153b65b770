use soundcheck::wav::{
    cue_points, info_body, mark_bodies, markers, parse, parse_bext, parse_cue, parse_fmt,
    parse_info, point, sort_markers, subchunk, subchunks, text, windows_1252, Error, Format,
    Marker, SampleKind, StoredMarks,
};

/// A minimal 16-bit WAV at 48 kHz, optionally RF64 with a placeholder data
/// size, plus whatever extra chunks the test wants, placed before `data`.
/// `samples` are interleaved over `channels`.
fn build_channels(
    rf64: bool,
    channels: u16,
    extra: &[(&[u8; 4], Vec<u8>)],
    samples: &[i16],
) -> Vec<u8> {
    let mut body = b"WAVE".to_vec();
    let data: Vec<u8> = samples.iter().flat_map(|s| s.to_le_bytes()).collect();
    let chunk = |out: &mut Vec<u8>, id: &[u8; 4], size: u32, bytes: &[u8]| {
        out.extend_from_slice(id);
        out.extend_from_slice(&size.to_le_bytes());
        out.extend_from_slice(bytes);
        if bytes.len() % 2 == 1 {
            out.push(0);
        }
    };
    if rf64 {
        let mut ds64 = vec![0u8; 28];
        ds64[8..16].copy_from_slice(&(data.len() as u64).to_le_bytes());
        chunk(&mut body, b"ds64", 28, &ds64);
    }
    let block: u16 = 2 * channels;
    let mut fmt = Vec::new();
    fmt.extend_from_slice(&1u16.to_le_bytes());
    fmt.extend_from_slice(&channels.to_le_bytes());
    fmt.extend_from_slice(&48_000u32.to_le_bytes());
    fmt.extend_from_slice(&(48_000 * u32::from(block)).to_le_bytes());
    fmt.extend_from_slice(&block.to_le_bytes());
    fmt.extend_from_slice(&16u16.to_le_bytes());
    chunk(&mut body, b"fmt ", 16, &fmt);
    for (id, bytes) in extra {
        chunk(&mut body, id, bytes.len() as u32, bytes);
    }
    let data_size: u32 = if rf64 { u32::MAX } else { data.len() as u32 };
    chunk(&mut body, b"data", data_size, &data);
    let mut file = if rf64 {
        b"RF64".to_vec()
    } else {
        b"RIFF".to_vec()
    };
    file.extend_from_slice(&(if rf64 { u32::MAX } else { body.len() as u32 }).to_le_bytes());
    file.extend(body);
    file
}

/// Mono, as most tests want.
fn build(rf64: bool, extra: &[(&[u8; 4], Vec<u8>)], samples: &[i16]) -> Vec<u8> {
    build_channels(rf64, 1, extra, samples)
}

#[test]
fn reads_plain_riff() {
    let file = build(false, &[], &[0, 16_384, -16_384]);
    let w = parse(&file).unwrap();
    assert_eq!(
        (w.container, w.sample_rate, w.channels, w.kind),
        ("WAV", 48_000, 1, SampleKind::I16)
    );
    assert_eq!(w.frames(), 3);
    let ids: Vec<&[u8; 4]> = w.chunks.iter().map(|c| &c.id).collect();
    assert_eq!(ids, [b"fmt ", b"data"]);
}

#[test]
fn reads_rf64_through_ds64() {
    let file = build(true, &[], &[1, 2, 3, 4]);
    let w = parse(&file).unwrap();
    assert_eq!(w.container, "RF64");
    assert_eq!(w.frames(), 4);
}

#[test]
fn keeps_what_a_truncated_recording_holds() {
    let mut file = build(false, &[], &[7; 100]);
    file.truncate(file.len() - 50);
    assert_eq!(parse(&file).unwrap().frames(), 75);
}

#[test]
fn a_data_size_left_at_zero_still_reads_the_audio() {
    let mut file = build(false, &[], &[7; 100]);
    let at = file.len() - 200 - 4;
    file[at..at + 4].copy_from_slice(&0u32.to_le_bytes());
    assert_eq!(parse(&file).unwrap().frames(), 100);
}

#[test]
fn decodes_24_bit_sign_correctly() {
    let mut out = [0.0f32; 2];
    let scale = SampleKind::I24.full_scale().unwrap() as f32;
    for (out, b) in out.iter_mut().zip([0x00, 0x00, 0x80, 0x00, 0x00, 0x40].chunks(3)) {
        *out = SampleKind::I24.whole(b).unwrap() as f32 / scale;
    }
    assert_eq!(out, [-1.0, 0.5]);
}

#[test]
fn rejects_non_wav_without_error_so_symphonia_can_try() {
    let flac = b"fLaC\0\0\0\"....";
    assert!(matches!(parse(flac), Err(Error::NotWav)));
}

fn marker(id: u32, frame: usize, length: usize, label: &str) -> Marker {
    Marker {
        id,
        frame,
        length,
        label: label.into(),
        note: String::new(),
    }
}

/// A file holding `marks`, written as a save writes new ones.
fn marked(marks: &[Marker]) -> Vec<u8> {
    let (cue, adtl) = mark_bodies(marks, &StoredMarks::default());
    let mut extra = vec![(b"cue ", cue)];
    extra.extend(adtl.map(|adtl| (b"LIST", adtl)));
    build(false, &extra, &[0; 100])
}

#[test]
fn marks_come_from_cue_points_named_in_adtl() {
    let heron = Marker {
        note: "far bank".into(),
        ..marker(2, 30, 20, "Heron")
    };
    let marks = [heron, marker(7, 10, 0, "")];
    let w = parse(&marked(&marks)).unwrap();
    assert_eq!(w.cues.unwrap(), [marks[1].clone(), marks[0].clone()]);
}

#[test]
fn a_cue_point_with_only_its_position_set_is_still_placed() {
    let (mut cue, _) = mark_bodies(&[marker(1, 5, 0, "")], &StoredMarks::default());
    cue[24..28].copy_from_slice(&0u32.to_le_bytes());
    let file = build(false, &[(b"cue ", cue)], &[0; 10]);
    let w = parse(&file).unwrap();
    assert_eq!(w.cues.unwrap()[0].frame, 5);
    let plain = parse(&build(false, &[], &[0; 10])).unwrap();
    assert!(plain.cues.is_none());
}

#[test]
fn text_that_is_not_utf_8_reads_as_windows_1252() {
    assert_eq!(text(b"Caf\xE9 \0junk"), "Caf\u{E9}");
    assert_eq!(text(b"\x93hi\x94 \x805"), "\u{201C}hi\u{201D} \u{20AC}5");
    assert_eq!(text("Rõõm".as_bytes()), "Rõõm");
}

#[test]
fn marks_an_edit_leaves_alone_go_back_as_stored() {
    // As older Windows software writes them: a name in Windows-1252, a
    // region named only in its ltxt, and a subchunk of another kind.
    let mut cue = 2u32.to_le_bytes().to_vec();
    for (id, frame) in [(1u32, 10u32), (2, 40)] {
        cue.extend(id.to_le_bytes());
        cue.extend(frame.to_le_bytes());
        cue.extend(b"data");
        cue.extend([0; 8]);
        cue.extend(frame.to_le_bytes());
    }
    let mut adtl = Vec::new();
    subchunk(&mut adtl, b"labl", b"\x01\0\0\0R\xF5\xF5m\0");
    subchunk(
        &mut adtl,
        b"ltxt",
        b"\x02\0\0\0\x32\0\0\0rgn \x01\0\x09\0\0\0\xE4\x04Caf\xE9\0",
    );
    subchunk(&mut adtl, b"file", b"\x02\0\0\0xy");
    let list = [b"adtl".as_slice(), &adtl].concat();
    let file = build(
        false,
        &[(b"cue ", cue.clone()), (b"LIST", list.clone())],
        &[0; 100],
    );
    let marks = parse(&file).unwrap().cues.unwrap();
    assert_eq!(marks, [marker(1, 10, 0, "Rõõm"), marker(2, 40, 50, "Café")]);

    let mut stored = StoredMarks::default();
    stored.add_cue(&cue);
    stored.add_adtl(&adtl);
    assert_eq!(mark_bodies(&marks, &stored), (cue, Some(list)));

    // Moved, the first keeps its name as stored; renamed, the second
    // loses the old name from its region.
    let mut edited = marks.clone();
    edited[0].frame = 20;
    edited[1].label = "Kohvik".into();
    let (cue, list) = mark_bodies(&edited, &stored);
    let list = list.unwrap();
    let holds = |part: &[u8]| list.windows(part.len()).any(|w| w == part);
    assert!(holds(b"R\xF5\xF5m\0") && holds(b"Kohvik\0") && holds(b"file"));
    assert!(!holds(b"Caf\xE9"));
    let file = build(false, &[(b"cue ", cue), (b"LIST", list)], &[0; 100]);
    assert_eq!(parse(&file).unwrap().cues.unwrap(), edited);
}

#[test]
fn info_an_edit_leaves_alone_goes_back_as_stored() {
    let mut entries = Vec::new();
    subchunk(&mut entries, b"ICMT", b"Caf\xE9 \0");
    subchunk(&mut entries, b"INAM", b"Take\0");
    let list = [b"INFO".as_slice(), &entries].concat();
    let file = build(false, &[(b"LIST", list.clone())], &[0; 4]);
    let info = parse(&file).unwrap().info;
    assert_eq!(
        info,
        [(*b"ICMT", "Café".to_owned()), (*b"INAM", "Take".to_owned())]
    );
    let stored: Vec<([u8; 4], Vec<u8>)> = subchunks(&entries)
        .into_iter()
        .map(|(id, body)| (id, body.to_vec()))
        .collect();
    assert_eq!(info_body(&info, &stored), list);
    let renamed = [info[0].clone(), (*b"INAM", "Take 2".to_owned())];
    let body = info_body(&renamed, &stored);
    let holds = |part: &[u8]| body.windows(part.len()).any(|w| w == part);
    assert!(holds(b"Caf\xE9 \0") && holds(b"Take 2\0"));
}

fn message(file: &[u8]) -> String {
    parse(file).unwrap_err().message()
}

#[test]
fn files_that_are_no_wave_or_a_broken_one_say_so() {
    assert_eq!(message(b"OggS00000000WAVE"), "not a WAV file");
    assert_eq!(message(b"RIFF"), "not a WAV file");
    assert_eq!(message(b"RIFF\x04\0\0\0WAVE"), "WAV file has no fmt chunk");
    let mut without_fmt = b"RIFF\x10\0\0\0WAVEdata\x04\0\0\0".to_vec();
    without_fmt.extend([0; 4]);
    assert_eq!(message(&without_fmt), "WAV file has no fmt chunk");
    let whole = build(false, &[], &[1, 2]);
    assert_eq!(message(&whole[..36]), "WAV file has no data chunk");
}

fn fmt(tag: u16, channels: u16, rate: u32, bits: u16) -> Vec<u8> {
    let mut b = Vec::new();
    b.extend(tag.to_le_bytes());
    b.extend(channels.to_le_bytes());
    b.extend(rate.to_le_bytes());
    b.extend([0; 6]);
    b.extend(bits.to_le_bytes());
    b
}

#[test]
fn the_format_tells_how_samples_are_stored() {
    let read = |tag, bits| parse_fmt(&fmt(tag, 2, 44_100, bits)).map(|f| f.kind);
    assert_eq!(read(1, 8).unwrap(), SampleKind::U8);
    assert_eq!(read(1, 16).unwrap(), SampleKind::I16);
    assert_eq!(read(1, 24).unwrap(), SampleKind::I24);
    assert_eq!(read(1, 32).unwrap(), SampleKind::I32);
    assert_eq!(read(3, 32).unwrap(), SampleKind::F32);
    assert_eq!(read(3, 64).unwrap(), SampleKind::F64);
    assert_eq!(
        parse_fmt(&fmt(1, 2, 44_100, 24)).unwrap(),
        Format {
            sample_rate: 44_100,
            channels: 2,
            kind: SampleKind::I24,
        }
    );
    assert!(parse_fmt(&fmt(1, 0, 44_100, 16)).is_err());
    assert!(parse_fmt(&fmt(1, 1, 0, 16)).is_err());
    assert!(parse_fmt(&[1, 0, 1, 0]).is_err());
    assert_eq!(
        read(2, 4).unwrap_err().message(),
        "unsupported WAV encoding (format 0x0002, 4-bit)"
    );
}

#[test]
fn an_extensible_format_names_its_own_inside() {
    let mut b = fmt(0xFFFE, 2, 96_000, 32);
    b.extend([22, 0, 32, 0, 3, 0, 0, 0]);
    b.extend(3u16.to_le_bytes());
    b.extend([0; 14]);
    assert_eq!(parse_fmt(&b).unwrap().kind, SampleKind::F32);
}

#[test]
fn every_windows_1252_letter_past_latin_1_is_known() {
    assert_eq!(windows_1252(0x80), '\u{20AC}');
    assert_eq!(windows_1252(0x9F), '\u{178}');
    assert_eq!(windows_1252(0x81), '\u{81}');
    assert_eq!(windows_1252(0xE4), 'ä');
    assert_eq!(windows_1252(b'a'), 'a');
}

#[test]
fn a_broadcast_chunk_reads_field_by_field() {
    let mut b = vec![0u8; 602];
    b[..4].copy_from_slice(b"Dawn");
    b[256..260].copy_from_slice(b"Zoom");
    b[288..291].copy_from_slice(b"ref");
    b[320..330].copy_from_slice(b"2026-04-03");
    b[330..338].copy_from_slice(b"07:14:05");
    b[338..346].copy_from_slice(&123_456_789_012u64.to_le_bytes());
    b.extend(b"A=PCM\r\n");
    let read = parse_bext(&b).unwrap();
    assert_eq!(read.description, "Dawn");
    assert_eq!(read.originator, "Zoom");
    assert_eq!(read.originator_reference, "ref");
    assert_eq!(read.origination_date, "2026-04-03");
    assert_eq!(read.origination_time, "07:14:05");
    assert_eq!(read.time_reference, 123_456_789_012);
    assert_eq!(read.coding_history, "A=PCM");
    assert_eq!(read.raw, b);
    assert!(parse_bext(&b[..345]).is_none());
    assert_eq!(parse_bext(&b[..346]).unwrap().coding_history, "");
}

#[test]
fn packed_subchunks_come_back_padding_and_all() {
    let mut packed = Vec::new();
    subchunk(&mut packed, b"odd ", b"abc");
    subchunk(&mut packed, b"none", b"");
    subchunk(&mut packed, b"even", b"abcd");
    assert_eq!(packed.len(), 12 + 8 + 12);
    let read = subchunks(&packed);
    assert_eq!(read.len(), 3);
    assert_eq!(read[0], (*b"odd ", b"abc".as_slice()));
    assert_eq!(read[1], (*b"none", b"".as_slice()));
    assert_eq!(read[2], (*b"even", b"abcd".as_slice()));
    assert_eq!(subchunks(b"cut \xFF\0\0\0xy"), [(*b"cut ", b"xy".as_slice())]);
    assert!(subchunks(b"short").is_empty());
}

#[test]
fn written_info_comes_back() {
    let entries = [
        (*b"INAM", "Loobu".to_owned()),
        (*b"ICMT", "jõgi".to_owned()),
        (*b"ZTST", String::new()),
    ];
    let body = info_body(&entries, &[]);
    assert_eq!(&body[..4], b"INFO");
    assert_eq!(parse_info(&body[4..]), entries);
}

#[test]
fn written_marks_come_back_in_order() {
    let heron = Marker {
        note: "kaugel".into(),
        ..marker(2, 30, 20, "Hõbehaigur")
    };
    let marks = [heron, marker(7, 10, 0, "Owl"), marker(9, 10, 4, "")];
    let (cue, adtl) = mark_bodies(&marks, &StoredMarks::default());
    let points = parse_cue(&cue);
    assert_eq!(points, [(2, 30), (7, 10), (9, 10)]);
    assert_eq!(cue_points(&cue).len(), 3);
    assert_eq!(point(&cue_points(&cue)[1]), (7, 10));
    let list = adtl.unwrap();
    assert_eq!(&list[..4], b"adtl");
    let entries: Vec<([u8; 4], Vec<u8>)> = subchunks(&list[4..])
        .into_iter()
        .map(|(id, body)| (id, body.to_vec()))
        .collect();
    let sorted = [marks[1].clone(), marks[2].clone(), marks[0].clone()];
    assert_eq!(markers(&points, &entries), sorted);
    assert_eq!(sort_markers(marks.to_vec()), sorted);
    let (empty, none) = mark_bodies(&[], &StoredMarks::default());
    assert_eq!((empty, none), (vec![0, 0, 0, 0], None));
}

#[test]
fn a_cue_chunk_that_says_too_much_gives_what_it_has() {
    let (mut cue, _) = mark_bodies(&[marker(1, 5, 0, "")], &StoredMarks::default());
    cue[..4].copy_from_slice(&9u32.to_le_bytes());
    assert_eq!(parse_cue(&cue), [(1, 5)]);
    assert!(parse_cue(&[1, 0]).is_empty());
}

#[test]
fn channels_and_bytes_make_frames() {
    let w = parse(&build_channels(false, 2, &[], &[1, 2, 3, 4, 5, 6])).unwrap();
    assert_eq!(w.frame_bytes(), 4);
    assert_eq!(w.frames(), 3);
    assert_eq!(SampleKind::F64.bytes(), 8);
    assert_eq!(SampleKind::F64.bits(), 64);
}

#[test]
fn every_byte_reads_as_a_letter_of_its_own() {
    let letters: Vec<char> = (0..=255u8).map(windows_1252).collect();
    for (i, a) in letters.iter().enumerate() {
        assert!(!letters[i + 1..].contains(a), "{i}");
    }
    assert_eq!(text(&[b'a', 0xE4, 0x80, b'b']).chars().count(), 4);
}

#[test]
fn a_cue_body_holds_every_point_whole() {
    let mut stored = StoredMarks::default();
    let (cue, _) = mark_bodies(&[marker(1, 5, 0, "")], &stored);
    stored.add_cue(&cue);
    let marks = [marker(1, 5, 0, ""), marker(2, 9, 0, ""), marker(3, 9, 4, "x")];
    let (body, _) = mark_bodies(&marks, &stored);
    assert_eq!(body.len(), 4 + 24 * marks.len());
    assert_eq!(body[4..28], cue[4..28]);
}
