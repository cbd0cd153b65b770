use soundcheck::save::{
    body_wanted, rename, rename_target, saved, temp_path, Changes, Renaming, Saving, Step,
};
use soundcheck::wav::{info_body, mark_bodies, parse, Marker, StoredMarks, Wav};

/// A minimal 16-bit WAV at 48 kHz, optionally RF64 with a placeholder data
/// size, plus whatever extra chunks the test wants, placed before `data`.
/// `samples` are interleaved over `channels`.
fn build_channels(
    rf64: bool,
    channels: u16,
    extra: &[(&[u8; 4], Vec<u8>)],
    samples: &[i16],
) -> Vec<u8> {
    let mut body = b"WAVE".to_vec();
    let data: Vec<u8> = samples.iter().flat_map(|s| s.to_le_bytes()).collect();
    let chunk = |out: &mut Vec<u8>, id: &[u8; 4], size: u32, bytes: &[u8]| {
        out.extend_from_slice(id);
        out.extend_from_slice(&size.to_le_bytes());
        out.extend_from_slice(bytes);
        if bytes.len() % 2 == 1 {
            out.push(0);
        }
    };
    if rf64 {
        let mut ds64 = vec![0u8; 28];
        ds64[8..16].copy_from_slice(&(data.len() as u64).to_le_bytes());
        chunk(&mut body, b"ds64", 28, &ds64);
    }
    let block: u16 = 2 * channels;
    let mut fmt = Vec::new();
    fmt.extend_from_slice(&1u16.to_le_bytes());
    fmt.extend_from_slice(&channels.to_le_bytes());
    fmt.extend_from_slice(&48_000u32.to_le_bytes());
    fmt.extend_from_slice(&(48_000 * u32::from(block)).to_le_bytes());
    fmt.extend_from_slice(&block.to_le_bytes());
    fmt.extend_from_slice(&16u16.to_le_bytes());
    chunk(&mut body, b"fmt ", 16, &fmt);
    for (id, bytes) in extra {
        chunk(&mut body, id, bytes.len() as u32, bytes);
    }
    let data_size: u32 = if rf64 { u32::MAX } else { data.len() as u32 };
    chunk(&mut body, b"data", data_size, &data);
    let mut file = if rf64 {
        b"RF64".to_vec()
    } else {
        b"RIFF".to_vec()
    };
    file.extend_from_slice(&(if rf64 { u32::MAX } else { body.len() as u32 }).to_le_bytes());
    file.extend(body);
    file
}

/// Mono, as most tests want.
fn build(rf64: bool, extra: &[(&[u8; 4], Vec<u8>)], samples: &[i16]) -> Vec<u8> {
    build_channels(rf64, 1, extra, samples)
}

fn marker(id: u32, frame: usize, length: usize, label: &str) -> Marker {
    Marker {
        id,
        frame,
        length,
        label: label.into(),
        note: String::new(),
    }
}

fn samples() -> Vec<i16> {
    (0..999).map(|i| (i * 37 % 2000) as i16 - 1000).collect()
}

fn ids(file: &[u8]) -> Vec<[u8; 4]> {
    let w = parse(file).unwrap();
    w.chunks.iter().map(|c| c.id).collect()
}

fn run(file: &[u8], changes: &Changes) -> Vec<u8> {
    saved(file, changes).unwrap()
}

#[test]
fn saving_nothing_writes_the_same_file() {
    let file = build(
        false,
        &[(b"zoom", vec![1, 2, 3]), (b"JUNK", vec![0; 28])],
        &samples(),
    );
    assert_eq!(run(&file, &Changes::default()), file);
}

#[test]
fn changes_land_and_everything_else_stays_as_it_was() {
    let mut bext = vec![0u8; 602];
    bext[..3].copy_from_slice(b"old");
    let (cue, adtl) = mark_bodies(&[marker(1, 100, 0, "start")], &StoredMarks::default());
    let file = build(
        false,
        &[
            (b"bext", bext.clone()),
            (b"zoom", vec![9; 5]),
            (b"cue ", cue),
            (b"LIST", adtl.unwrap()),
        ],
        &samples(),
    );
    bext[..3].copy_from_slice(b"new");
    let changes = Changes {
        bext: Some(bext.clone()),
        info: Some(vec![(*b"INAM", "Loobu".into())]),
        markers: Some(vec![marker(1, 100, 0, "start"), marker(2, 400, 50, "owl")]),
        ixml: Some("<BWFXML><NOTE>n</NOTE></BWFXML>".into()),
    };
    let saved = run(&file, &changes);
    let w = parse(&saved).unwrap();
    let o = parse(&file).unwrap();
    assert_eq!(w.bext.as_ref().unwrap().raw, bext);
    assert_eq!(w.info, [(*b"INAM", "Loobu".to_owned())]);
    assert_eq!(w.cues.as_deref(), changes.markers.as_deref());
    assert_eq!(w.ixml.as_deref(), Some("<BWFXML><NOTE>n</NOTE></BWFXML>"));
    let audio = |f: &[u8], w: &Wav| f[w.data.start as usize..w.data.end as usize].to_vec();
    assert_eq!(audio(&saved, &w), audio(&file, &o));
    assert_eq!(
        ids(&saved),
        [
            *b"fmt ", *b"bext", *b"zoom", *b"cue ", *b"LIST", *b"data", *b"LIST", *b"iXML"
        ]
    );
    let zoom = |f: &[u8]| {
        let w = parse(f).unwrap();
        let z = w
            .chunks
            .iter()
            .find(|c| &c.id == b"zoom")
            .unwrap()
            .body
            .clone();
        f[z.start as usize..z.end as usize].to_vec()
    };
    assert_eq!(zoom(&saved), zoom(&file));
}

#[test]
fn a_new_header_goes_before_the_audio_and_new_marks_after_it() {
    let file = build(false, &[], &samples());
    let changes = Changes {
        bext: Some(vec![0; 602]),
        markers: Some(vec![marker(1, 5, 0, "")]),
        ..Changes::default()
    };
    let saved = run(&file, &changes);
    assert_eq!(ids(&saved), [*b"fmt ", *b"bext", *b"data", *b"cue "]);
    let none = Changes {
        markers: Some(Vec::new()),
        ..Changes::default()
    };
    let cleared = run(&saved, &none);
    let w = parse(&cleared).unwrap();
    assert_eq!(w.cues, Some(Vec::new()));
}

#[test]
fn a_second_header_stays_and_every_info_list_goes_into_one() {
    let info = |id: &[u8; 4], value: &str| info_body(&[(*id, value.into())], &[]);
    let header = |text: &[u8]| {
        let mut bext = vec![0u8; 602];
        bext[..text.len()].copy_from_slice(text);
        bext
    };
    let file = build(
        false,
        &[
            (b"bext", header(b"first")),
            (b"LIST", info(b"INAM", "a")),
            (b"bext", header(b"second")),
            (b"LIST", info(b"ICMT", "b")),
        ],
        &samples(),
    );
    let changes = Changes {
        bext: Some(header(b"edited")),
        info: Some(vec![(*b"INAM", "a".into()), (*b"ICMT", "c".into())]),
        ..Changes::default()
    };
    let saved = run(&file, &changes);
    assert_eq!(
        ids(&saved),
        [*b"fmt ", *b"bext", *b"LIST", *b"bext", *b"data"]
    );
    let w = parse(&saved).unwrap();
    assert_eq!(w.bext.unwrap().raw, header(b"edited"));
    assert_eq!(
        w.info,
        [(*b"INAM", "a".to_owned()), (*b"ICMT", "c".to_owned())]
    );
    let second = &w.chunks[3].body;
    assert_eq!(
        saved[second.start as usize..second.end as usize],
        header(b"second")
    );
}

#[test]
fn rf64_stays_rf64_with_its_sizes_in_ds64() {
    let file = build(true, &[], &samples());
    let changes = Changes {
        info: Some(vec![(*b"ICMT", "big".into())]),
        ..Changes::default()
    };
    let saved = run(&file, &changes);
    let w = parse(&saved).unwrap();
    assert_eq!((w.container, w.frames()), ("RF64", 999));
    let size = u64::from_le_bytes(saved[20..28].try_into().unwrap());
    assert_eq!(size, saved.len() as u64 - 8);
}

/// A save on a disk on which one step fails, and what the file holds then.
fn save_on_disk(file: &[u8], changes: &Changes, failing: Step) -> (Option<String>, Vec<u8>) {
    let mut disk = file.to_vec();
    let mut new: Option<Vec<u8>> = None;
    let mut saving = Saving::new();
    while saving.step != Step::Finished {
        if saving.step == failing {
            saving.took(Some("denied".into()));
            continue;
        }
        match saving.step {
            Step::Write => new = Some(saved(&disk, changes).unwrap()),
            Step::Place => disk = new.take().unwrap(),
            Step::Clear | Step::Discard => new = None,
            _ => {}
        }
        saving.took(None);
    }
    assert!(new.is_none());
    (saving.error, disk)
}

#[test]
fn a_save_that_cannot_finish_leaves_the_original_as_it_was() {
    let file = build(false, &[], &samples());
    let changes = Changes {
        info: Some(vec![(*b"ICMT", "x".into())]),
        ..Changes::default()
    };
    for (step, error) in [
        (Step::Open, "denied"),
        (Step::Write, "cannot write the new file: denied"),
        (Step::Check, "denied"),
        (
            Step::Attributes,
            "cannot carry over the file's dates and attributes: denied",
        ),
        (Step::Place, "cannot put the new file in place: denied"),
    ] {
        let (result, after) = save_on_disk(&file, &changes, step);
        assert_eq!(result.as_deref(), Some(error));
        assert_eq!(after, file);
    }
    let (result, after) = save_on_disk(&file, &changes, Step::Finished);
    assert_eq!(result, None);
    assert_eq!(after, saved(&file, &changes).unwrap());
    assert_eq!(temp_path("/f/a.wav"), "/f/.a.wav.soundcheck-save");
}

#[test]
fn rename_never_replaces_another_file() {
    assert!(rename("/f/rename-a.wav", "rename-b.wav", false, true)
        .unwrap_err()
        .contains("already exists"));
    for bad in ["", "  ", "a/b.wav", ".hidden.wav"] {
        assert!(rename("/f/rename-a.wav", bad, false, false).is_err(), "{bad:?}");
    }
    assert!(matches!(
        rename("/f/rename-a.wav", " rename-c.wav ", false, false),
        Ok(Renaming::Move(to)) if to == "/f/rename-c.wav"
    ));
    assert!(matches!(
        rename("/f/rename-c.wav", "RENAME-C.wav", false, false),
        Ok(Renaming::Move(to)) if to == "/f/RENAME-C.wav"
    ));
    assert!(matches!(
        rename("/f/rename-c.wav", "rename-c.wav", false, true),
        Ok(Renaming::Same(to)) if to == "/f/rename-c.wav"
    ));
    assert_eq!(
        rename_target("/f/a.wav", "b?.wav", false).unwrap(),
        "/f/b?.wav"
    );
    assert_eq!(
        rename_target("/f/a.wav", "b:.wav", false).unwrap_err(),
        "\"b:.wav\" cannot be a file name: it must not start with a dot or hold any of /\\:"
    );
    assert!(rename_target("/f/a.wav", "b?.wav", true).is_err());
}

#[test]
fn a_file_that_cannot_be_read_is_not_saved() {
    assert!(saved(b"not a wave file", &Changes::default()).is_err());
}

#[test]
fn marks_that_four_bytes_cannot_hold_are_not_saved() {
    let file = build(false, &[], &samples());
    let changes = Changes {
        markers: Some(vec![marker(1, 0x1_0000_0000, 0, "far")]),
        ..Changes::default()
    };
    let error = saved(&file, &changes).unwrap_err();
    assert!(error.contains("markers"), "{error}");
}

#[test]
fn marks_that_share_an_id_are_not_saved_as_one() {
    let file = build(false, &[], &samples());
    let changes = Changes {
        markers: Some(vec![marker(1, 5, 0, "a"), marker(1, 9, 0, "b")]),
        ..Changes::default()
    };
    assert!(saved(&file, &changes).is_err());
}

#[test]
fn only_marks_and_lists_are_read_whole() {
    assert!(body_wanted(b"cue ", b"    "));
    assert!(body_wanted(b"LIST", b"INFO"));
    assert!(!body_wanted(b"zoom", b"INFO"));
}
