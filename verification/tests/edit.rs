use soundcheck::edit::{clock, crlf, lf, Edits, BEXT_SIZE};
use soundcheck::meta::INFO_FIELDS;
use soundcheck::save::{saved as written, Changes};
use soundcheck::wav::{info_body, parse, parse_bext, Marker, Wav};

/// A minimal 16-bit WAV at 48 kHz, optionally RF64 with a placeholder data
/// size, plus whatever extra chunks the test wants, placed before `data`.
/// `samples` are interleaved over `channels`.
fn build_channels(
    rf64: bool,
    channels: u16,
    extra: &[(&[u8; 4], Vec<u8>)],
    samples: &[i16],
) -> Vec<u8> {
    let mut body = b"WAVE".to_vec();
    let data: Vec<u8> = samples.iter().flat_map(|s| s.to_le_bytes()).collect();
    let chunk = |out: &mut Vec<u8>, id: &[u8; 4], size: u32, bytes: &[u8]| {
        out.extend_from_slice(id);
        out.extend_from_slice(&size.to_le_bytes());
        out.extend_from_slice(bytes);
        if bytes.len() % 2 == 1 {
            out.push(0);
        }
    };
    if rf64 {
        let mut ds64 = vec![0u8; 28];
        ds64[8..16].copy_from_slice(&(data.len() as u64).to_le_bytes());
        chunk(&mut body, b"ds64", 28, &ds64);
    }
    let block: u16 = 2 * channels;
    let mut fmt = Vec::new();
    fmt.extend_from_slice(&1u16.to_le_bytes());
    fmt.extend_from_slice(&channels.to_le_bytes());
    fmt.extend_from_slice(&48_000u32.to_le_bytes());
    fmt.extend_from_slice(&(48_000 * u32::from(block)).to_le_bytes());
    fmt.extend_from_slice(&block.to_le_bytes());
    fmt.extend_from_slice(&16u16.to_le_bytes());
    chunk(&mut body, b"fmt ", 16, &fmt);
    for (id, bytes) in extra {
        chunk(&mut body, id, bytes.len() as u32, bytes);
    }
    let data_size: u32 = if rf64 { u32::MAX } else { data.len() as u32 };
    chunk(&mut body, b"data", data_size, &data);
    let mut file = if rf64 {
        b"RF64".to_vec()
    } else {
        b"RIFF".to_vec()
    };
    file.extend_from_slice(&(if rf64 { u32::MAX } else { body.len() as u32 }).to_le_bytes());
    file.extend(body);
    file
}

/// Mono, as most tests want.
fn build(rf64: bool, extra: &[(&[u8; 4], Vec<u8>)], samples: &[i16]) -> Vec<u8> {
    build_channels(rf64, 1, extra, samples)
}

fn bext(description: &str, originator: &str, reference: u64) -> Vec<u8> {
    let mut b = vec![0u8; BEXT_SIZE];
    b[..description.len()].copy_from_slice(description.as_bytes());
    b[256..256 + originator.len()].copy_from_slice(originator.as_bytes());
    b[338..346].copy_from_slice(&reference.to_le_bytes());
    b[346] = 1;
    b[400] = 0xAB;
    b
}

fn parsed(extra: &[(&[u8; 4], Vec<u8>)]) -> Wav {
    parse(&build(false, extra, &[0; 16])).unwrap()
}

/// The samples since midnight that the start of `edits` stands for at 48
/// kHz.
fn samples(edits: &Edits) -> Option<u64> {
    let (h, m, text) = edits.start_parts()?;
    let s: f64 = text.parse().ok()?;
    if !(0.0..60.0).contains(&s) {
        return None;
    }
    Some(((h * 3600 + m * 60) as f64 * 48_000.0 + s * 48_000.0).round() as u64)
}

fn changes(edits: &Edits, saved: &Edits) -> Result<Changes, String> {
    edits.changes(saved, samples(edits))
}

#[test]
fn nothing_changed_writes_nothing() {
    let ixml = b"<BWFXML><NOTE>x</NOTE></BWFXML>".to_vec();
    let w = parsed(&[(b"bext", bext("d", "o", 5)), (b"iXML", ixml)]);
    let saved = Edits::from_wav(&w);
    assert_eq!(changes(&saved.clone(), &saved).unwrap(), Changes::default());
}

#[test]
fn a_changed_bext_field_leaves_the_rest_of_the_chunk_alone() {
    let original = bext("sSPEED=048.000-ND\r\nsTAKE=01", "Zoom F3", 48_000 * 3600);
    let w = parsed(&[(b"bext", original.clone())]);
    let saved = Edits::from_wav(&w);
    assert_eq!(saved.bext[0], "sSPEED=048.000-ND\nsTAKE=01");
    assert_eq!(saved.start, "01:00:00.000");
    let mut edits = saved.clone();
    edits.bext[1] = "Erko".into();
    let chunk = changes(&edits, &saved).unwrap().bext.unwrap();
    assert_eq!(&chunk[256..260], b"Erko");
    assert!(chunk[260..288].iter().all(|&b| b == 0));
    assert_eq!(chunk[..256], original[..256]);
    assert_eq!(chunk[288..], original[288..]);
}

#[test]
fn text_too_long_for_its_field_is_refused_rather_than_cut() {
    let saved = Edits::from_wav(&parsed(&[]));
    let mut edits = saved.clone();
    edits.bext[1] = "Kõrvemaa helisalvestaja ja töötuba".into();
    let error = changes(&edits, &saved).unwrap_err();
    assert!(error.starts_with("Originator holds 32 bytes"), "{error}");
}

#[test]
fn a_start_time_becomes_samples_since_midnight() {
    let saved = Edits::from_wav(&parsed(&[]));
    let mut edits = saved.clone();
    edits.start = "16:04:25.5".into();
    let chunk = changes(&edits, &saved).unwrap().bext.unwrap();
    let reference = u64::from_le_bytes(chunk[338..346].try_into().unwrap());
    assert_eq!(reference, (16 * 3600 + 4 * 60 + 25) * 48_000 + 24_000);
    assert_eq!(clock(reference, 48_000), "16:04:25.500");
    edits.start = "25:00:00".into();
    assert!(changes(&edits, &saved).is_err());
}

#[test]
fn an_edited_ixml_field_changes_only_its_own_text() {
    let xml = "<BWFXML><!-- kept --><NOTE>old</NOTE><TRACK_LIST><TRACK><NAME>L</NAME></TRACK>\
               <TRACK><NAME>R</NAME></TRACK></TRACK_LIST><SCENE/></BWFXML>";
    let w = parsed(&[(b"iXML", xml.as_bytes().to_vec())]);
    let saved = Edits::from_wav(&w);
    let labels: Vec<&str> = saved.ixml.iter().map(|(l, _)| l.as_str()).collect();
    assert_eq!(
        labels,
        [
            "NOTE",
            "TRACK_LIST / TRACK 1 / NAME",
            "TRACK_LIST / TRACK 2 / NAME",
            "SCENE"
        ]
    );
    let mut edits = saved.clone();
    edits.ixml[0].1 = "Frogs & rain".into();
    edits.ixml[2].1 = "Right".into();
    edits.ixml[3].1 = "12".into();
    let text = changes(&edits, &saved).unwrap().ixml.unwrap();
    assert_eq!(
        text,
        "<BWFXML><!-- kept --><NOTE>Frogs &amp; rain</NOTE><TRACK_LIST><TRACK><NAME>L</NAME></TRACK>\
         <TRACK><NAME>Right</NAME></TRACK></TRACK_LIST><SCENE>12</SCENE></BWFXML>"
    );
}

#[test]
fn without_a_cue_chunk_the_original_app_s_sync_points_show() {
    let xml = "<BWFXML><SYNC_POINT_LIST><SYNC_POINT_COUNT>1</SYNC_POINT_COUNT><SYNC_POINT>\
               <SYNC_POINT_TYPE>RELATIVE</SYNC_POINT_TYPE><SYNC_POINT_COMMENT>Owl</SYNC_POINT_COMMENT>\
               <SYNC_POINT_LOW>96000</SYNC_POINT_LOW><SYNC_POINT_HIGH>0</SYNC_POINT_HIGH>\
               <SYNC_POINT_EVENT_DURATION>4800</SYNC_POINT_EVENT_DURATION></SYNC_POINT>\
               </SYNC_POINT_LIST></BWFXML>";
    let saved = Edits::from_wav(&parsed(&[(b"iXML", xml.as_bytes().to_vec())]));
    assert_eq!(
        saved.markers,
        [Marker {
            id: 1,
            frame: 96_000,
            length: 4_800,
            label: "Owl".into(),
            note: String::new(),
        }]
    );
    let empty_cue = parsed(&[
        (b"iXML", xml.as_bytes().to_vec()),
        (b"cue ", 0u32.to_le_bytes().to_vec()),
    ]);
    assert!(Edits::from_wav(&empty_cue).markers.is_empty());
}

#[test]
fn info_lists_the_known_fields_then_the_file_s_own() {
    let entries = [
        (*b"ZTST", "vendor".to_owned()),
        (*b"ICMT", "river".to_owned()),
        (*b"ICMT", "rain".to_owned()),
    ];
    let saved = Edits::from_wav(&parsed(&[(b"LIST", info_body(&entries, &[]))]));
    assert_eq!(saved.info.len(), INFO_FIELDS.len() + 2);
    assert_eq!(saved.info[2], entries[1]);
    assert_eq!(
        saved.info[INFO_FIELDS.len()..],
        [entries[0].clone(), entries[2].clone()]
    );
    let mut edits = saved.clone();
    edits.info[0].1 = " Loobu ".into();
    let info = changes(&edits, &saved).unwrap().info.unwrap();
    assert_eq!(
        info,
        [
            (*b"INAM", "Loobu".to_owned()),
            entries[1].clone(),
            entries[0].clone(),
            entries[2].clone()
        ]
    );
}

#[test]
fn written_bext_text_comes_back() {
    let saved = Edits::from_wav(&parsed(&[(b"bext", bext("d", "o", 5))]));
    let mut edits = saved.clone();
    edits.bext[0] = "Koit\nRõõm".into();
    edits.bext[4] = "07:14:05".into();
    edits.coding_history = "A=PCM\n".into();
    let chunk = changes(&edits, &saved).unwrap().bext.unwrap();
    let read = parse_bext(&chunk).unwrap();
    assert_eq!(read.description, "Koit\r\nRõõm");
    assert_eq!(lf(&read.description), edits.bext[0]);
    assert_eq!(read.originator, "o");
    assert_eq!(read.origination_time, "07:14:05");
    assert_eq!(read.time_reference, 5);
    assert_eq!(&chunk[BEXT_SIZE..], b"A=PCM\r\n");
}

#[test]
fn a_new_bext_chunk_is_of_the_first_version() {
    let saved = Edits::from_wav(&parsed(&[]));
    let mut edits = saved.clone();
    edits.bext[1] = "Erko".into();
    let chunk = changes(&edits, &saved).unwrap().bext.unwrap();
    assert_eq!(chunk.len(), BEXT_SIZE);
    assert_eq!(chunk[346..348], [1, 0]);
}

#[test]
fn line_ends_go_out_and_come_back() {
    assert_eq!(lf("a\r\nb\rc\nd"), "a\nb\nc\nd");
    assert_eq!(crlf("a\r\nb\rc\nd"), "a\r\nb\r\nc\r\nd");
    assert_eq!(lf(&crlf("a\r\n\n\rb")), lf("a\r\n\n\rb"));
}

#[test]
fn new_marks_get_ids_of_their_own() {
    let mut edits = Edits::from_wav(&parsed(&[]));
    assert_eq!(edits.next_marker_id(), 1);
    edits.markers.push(Marker {
        id: 7,
        frame: 0,
        length: 0,
        label: String::new(),
        note: String::new(),
    });
    assert_eq!(edits.next_marker_id(), 8);
}

#[test]
fn a_start_that_is_no_time_says_so() {
    let saved = Edits::from_wav(&parsed(&[(b"bext", bext("d", "o", 48_000))]));
    let mut edits = saved.clone();
    edits.start = "noon".into();
    assert_eq!(
        changes(&edits, &saved).unwrap_err(),
        "Start noon is not a time of day like 13:45:10.250"
    );
    edits.start = "1:00:61".into();
    assert!(changes(&edits, &saved).is_err());
    edits.start = " ".into();
    let chunk = changes(&edits, &saved).unwrap().bext.unwrap();
    assert_eq!(chunk[338..346], [0; 8]);
}

#[test]
fn edited_marks_are_trimmed_and_put_in_order() {
    let saved = Edits::from_wav(&parsed(&[]));
    let mut edits = saved.clone();
    for (id, frame, label) in [(1, 40, " late "), (2, 10, "early")] {
        edits.markers.push(Marker {
            id,
            frame,
            length: 0,
            label: label.into(),
            note: String::new(),
        });
    }
    let written = changes(&edits, &saved).unwrap().markers.unwrap();
    assert_eq!(written[0].id, 2);
    assert_eq!(written[1].label, "late");
}

/// A file whose document, lists and marks are all there to be edited.
fn everything() -> Vec<u8> {
    let xml = "<BWFXML><NOTE>old</NOTE><TRACK><NAME>L</NAME></TRACK><SCENE/></BWFXML>";
    let entries = [
        (*b"INAM", "Loobu".to_owned()),
        (*b"ZTST", "vendor".to_owned()),
    ];
    build(
        false,
        &[
            (b"bext", bext("d", "o", 48_000)),
            (b"iXML", xml.as_bytes().to_vec()),
            (b"LIST", info_body(&entries, &[])),
            (b"zoom", vec![7, 8, 9]),
        ],
        &[3; 16],
    )
}

#[test]
fn edits_that_were_saved_show_when_the_file_is_opened_again() {
    let file = everything();
    let saved = Edits::from_wav(&parse(&file).unwrap());
    let mut edits = saved.clone();
    edits.bext[0] = "Koit\nRõõm".into();
    edits.start = "02:00:00".into();
    edits.info[0].1 = " Jägala ".into();
    edits.ixml[0].1 = "Frogs & rain ".into();
    edits.ixml[2].1 = "<12>".into();
    edits.markers.push(Marker {
        id: 1,
        frame: 4,
        length: 2,
        label: " owl ".into(),
        note: "near".into(),
    });
    let new = written(&file, &changes(&edits, &saved).unwrap()).unwrap();
    let shown = Edits::from_wav(&parse(&new).unwrap());
    assert_eq!(shown.bext, edits.bext);
    assert_eq!(shown.start, "02:00:00.000");
    assert_eq!(shown.coding_history, saved.coding_history);
    assert_eq!(shown.info[0].1, "Jägala");
    assert_eq!(shown.info[1..], saved.info[1..]);
    let values: Vec<&str> = shown.ixml.iter().map(|(_, v)| v.as_str()).collect();
    assert_eq!(values, ["Frogs & rain", "L", "<12>"]);
    assert_eq!(shown.markers.len(), 1);
    assert_eq!(shown.markers[0].label, "owl");
    assert_eq!(shown.markers[0].length, 2);
}

#[test]
fn chunks_that_were_not_edited_are_kept_byte_for_byte() {
    let file = everything();
    let saved = Edits::from_wav(&parse(&file).unwrap());
    let mut edits = saved.clone();
    edits.ixml[0].1 = "new".into();
    let new = written(&file, &changes(&edits, &saved).unwrap()).unwrap();
    let bodies = |f: &[u8]| -> Vec<([u8; 4], Vec<u8>)> {
        let w = parse(f).unwrap();
        w.chunks
            .iter()
            .filter(|c| &c.id != b"iXML")
            .map(|c| (c.id, f[c.body.start as usize..c.body.end as usize].to_vec()))
            .collect()
    };
    assert_eq!(bodies(&new), bodies(&file));
}

#[test]
fn a_blank_field_gives_its_place_to_a_second_of_its_kind() {
    let entries = [
        (*b"ICMT", "river".to_owned()),
        (*b"ICMT", "rain".to_owned()),
    ];
    let file = build(false, &[(b"LIST", info_body(&entries, &[]))], &[0; 16]);
    let saved = Edits::from_wav(&parse(&file).unwrap());
    let mut edits = saved.clone();
    edits.info[2].1 = String::new();
    let new = written(&file, &changes(&edits, &saved).unwrap()).unwrap();
    let shown = Edits::from_wav(&parse(&new).unwrap());
    assert_eq!(shown.info[2].1, "rain");
    assert_eq!(shown.info.len(), INFO_FIELDS.len());
}
