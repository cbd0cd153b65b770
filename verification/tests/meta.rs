use soundcheck::meta::{
    clock_seconds, escape, from_tag_text, from_wav, human_text, info_name, is_machine_line,
    recorded, reference, unescape, wall_start, xml_text, StartTime, WallStart, INFO_FIELDS,
};
use soundcheck::pattern::Moment;
use soundcheck::wav::{parse, Bext};

/// A minimal 16-bit WAV at 48 kHz, optionally RF64 with a placeholder data
/// size, plus whatever extra chunks the test wants, placed before `data`.
/// `samples` are interleaved over `channels`.
fn build_channels(
    rf64: bool,
    channels: u16,
    extra: &[(&[u8; 4], Vec<u8>)],
    samples: &[i16],
) -> Vec<u8> {
    let mut body = b"WAVE".to_vec();
    let data: Vec<u8> = samples.iter().flat_map(|s| s.to_le_bytes()).collect();
    let chunk = |out: &mut Vec<u8>, id: &[u8; 4], size: u32, bytes: &[u8]| {
        out.extend_from_slice(id);
        out.extend_from_slice(&size.to_le_bytes());
        out.extend_from_slice(bytes);
        if bytes.len() % 2 == 1 {
            out.push(0);
        }
    };
    if rf64 {
        let mut ds64 = vec![0u8; 28];
        ds64[8..16].copy_from_slice(&(data.len() as u64).to_le_bytes());
        chunk(&mut body, b"ds64", 28, &ds64);
    }
    let block: u16 = 2 * channels;
    let mut fmt = Vec::new();
    fmt.extend_from_slice(&1u16.to_le_bytes());
    fmt.extend_from_slice(&channels.to_le_bytes());
    fmt.extend_from_slice(&48_000u32.to_le_bytes());
    fmt.extend_from_slice(&(48_000 * u32::from(block)).to_le_bytes());
    fmt.extend_from_slice(&block.to_le_bytes());
    fmt.extend_from_slice(&16u16.to_le_bytes());
    chunk(&mut body, b"fmt ", 16, &fmt);
    for (id, bytes) in extra {
        chunk(&mut body, id, bytes.len() as u32, bytes);
    }
    let data_size: u32 = if rf64 { u32::MAX } else { data.len() as u32 };
    chunk(&mut body, b"data", data_size, &data);
    let mut file = if rf64 {
        b"RF64".to_vec()
    } else {
        b"RIFF".to_vec()
    };
    file.extend_from_slice(&(if rf64 { u32::MAX } else { body.len() as u32 }).to_le_bytes());
    file.extend(body);
    file
}

/// Mono, as most tests want.
fn build(rf64: bool, extra: &[(&[u8; 4], Vec<u8>)], samples: &[i16]) -> Vec<u8> {
    build_channels(rf64, 1, extra, samples)
}

/// Seconds since midnight.
fn seconds(start: &WallStart) -> f64 {
    match start.time {
        StartTime::Samples { count, rate } => count as f64 / f64::from(rate),
        StartTime::Seconds(s) => f64::from(s),
    }
}

#[test]
fn machine_lines_are_recognised_and_prose_is_not() {
    assert!(is_machine_line("sSPEED=048.000-ND"));
    assert!(is_machine_line("zTRK1=Mid"));
    assert!(!is_machine_line("Wind=strong from the north"));
    assert!(!is_machine_line("a=b"));
    assert!(!is_machine_line("Nightingale near the pond"));
}

#[test]
fn machine_lines_are_stripped_from_mixed_text() {
    let raw = "sSPEED=048.000-ND\r\nDawn chorus, east meadow\r\nsTAKE=03\r\n";
    assert_eq!(human_text(raw).as_deref(), Some("Dawn chorus, east meadow"));
    assert_eq!(human_text("sSPEED=048.000-ND\r\nsTAKE=03"), None);
}

#[test]
fn ixml_note_is_extracted_and_unescaped() {
    let x = "<BWFXML><PROJECT>p</PROJECT><NOTE>Frogs &amp; rain</NOTE></BWFXML>";
    assert_eq!(xml_text(x, "NOTE").as_deref(), Some("Frogs & rain"));
    assert_eq!(xml_text(x, "SCENE"), None);
}

#[test]
fn character_references_and_cdata_become_text() {
    assert_eq!(
        unescape("J&#228;rv, caf&#xE9; &lt;shore&gt;"),
        "Järv, café <shore>"
    );
    assert_eq!(unescape("<![CDATA[a & <b>]]> c"), "a & <b> c");
    assert_eq!(unescape("AT&T &bogus; &#xZZ;"), "AT&T &bogus; &#xZZ;");
}

#[test]
fn origination_time_is_the_fallback_for_a_zero_time_reference() {
    let b = Bext {
        origination_time: "17-04-14".into(),
        ..Bext::default()
    };
    assert_eq!(seconds(&wall_start(&b, 48_000).unwrap()), 61_454.0);
    let b = Bext {
        time_reference: 48_000 * 3600,
        ..Bext::default()
    };
    assert_eq!(seconds(&wall_start(&b, 48_000).unwrap()), 3600.0);
    assert_eq!(wall_start(&Bext::default(), 48_000), None);
}

#[test]
fn ixml_note_outranks_a_machine_only_bext() {
    let mut bext = vec![0u8; 602];
    bext[..17].copy_from_slice(b"sSPEED=048.000-ND");
    bext[256..278].copy_from_slice(b"TASCAM Portacapture X8");
    bext[320..330].copy_from_slice(b"2026:09:08");
    bext[338..346].copy_from_slice(&(61_454u64 * 48_000).to_le_bytes());
    let ixml = b"<BWFXML><NOTE>Heron colony at dusk</NOTE></BWFXML>".to_vec();
    let file = build(false, &[(b"bext", bext), (b"iXML", ixml)], &[0; 4]);
    let m = from_wav(&parse(&file).unwrap());
    assert_eq!(m.description.as_deref(), Some("Heron colony at dusk"));
    assert_eq!(m.recorder.as_deref(), Some("TASCAM Portacapture X8"));
    let start = m.start.unwrap();
    assert_eq!(start.date.as_deref(), Some("2026-09-08"));
    assert_eq!(seconds(&start), 61_454.0);
}

#[test]
fn escaped_text_reads_back() {
    let text = "Frogs & rain <\"quoted\" 'n' done>";
    let chars: Vec<char> = text.chars().collect();
    let escaped: String = escape(&chars).into_iter().collect();
    assert!(!escaped.contains('<'));
    assert_eq!(unescape(&escaped), text);
    assert_eq!(escape(&['a', '&', 'b']), ['a', '&', 'a', 'm', 'p', ';', 'b']);
}

#[test]
fn references_name_characters() {
    let named = |s: &str| reference(&s.chars().collect::<Vec<char>>());
    assert_eq!(named("amp"), Some('&'));
    assert_eq!(named("quot"), Some('"'));
    assert_eq!(named("apos"), Some('\''));
    assert_eq!(named("#65"), Some('A'));
    assert_eq!(named("#x41"), Some('A'));
    assert_eq!(named("#xD800"), None);
    assert_eq!(named("nbsp"), None);
}

#[test]
fn a_description_outranks_the_comments_behind_it() {
    let mut info = b"INFO".to_vec();
    info.extend(b"ICMT\x06\0\0\0river\0");
    let w = parse(&build(false, &[(b"LIST", info.clone())], &[0; 4])).unwrap();
    assert_eq!(from_wav(&w).description.as_deref(), Some("river"));
    let mut bext = vec![0u8; 602];
    bext[..4].copy_from_slice(b"Dawn");
    let w = parse(&build(false, &[(b"bext", bext), (b"LIST", info)], &[0; 4])).unwrap();
    assert_eq!(from_wav(&w).description.as_deref(), Some("Dawn"));
    let tags = ["sTAKE=03".to_owned(), "Dusk".to_owned(), "Noon".to_owned()];
    assert_eq!(from_tag_text(&tags).description.as_deref(), Some("Dusk"));
    assert_eq!(from_tag_text(&[]).description, None);
}

#[test]
fn times_of_day_are_read_or_refused() {
    assert_eq!(clock_seconds("17:04:14"), Some(61_454));
    assert_eq!(clock_seconds("17.04.14"), Some(61_454));
    assert_eq!(clock_seconds("24:00:00"), None);
    assert_eq!(clock_seconds("17:60:00"), None);
    assert_eq!(clock_seconds("17:04"), None);
}

#[test]
fn the_moment_a_recording_began_comes_from_its_date_and_samples() {
    let start = WallStart {
        date: Some("2026-04-03".into()),
        time: StartTime::Samples {
            count: 48_000 * (7 * 3600 + 14 * 60 + 5),
            rate: 48_000,
        },
    };
    assert_eq!(
        recorded(&start),
        Some(Moment {
            year: 2026,
            month: 4,
            day: 3,
            hour: 7,
            minute: 14,
            second: 5,
            nano: 0,
        })
    );
    let undated = WallStart {
        date: None,
        time: StartTime::Seconds(5),
    };
    assert_eq!(recorded(&undated), None);
}

#[test]
fn info_fields_have_names() {
    assert_eq!(INFO_FIELDS[0], (*b"INAM", "Title"));
    assert_eq!(info_name(b"ICMT"), "Comment");
    assert_eq!(info_name(b"ZTST"), "ZTST");
}

#[test]
fn what_is_malformed_is_kept_as_written() {
    assert_eq!(unescape("<![CDATA[abc"), "<![CDATA[abc");
    assert_eq!(unescape("a <![CDATA[b]] > c"), "a <![CDATA[b]] > c");
    assert_eq!(unescape("<![CDATA[x]]><![CDATA[y"), "x<![CDATA[y");
    assert_eq!(unescape("&#+65; &#x+41; &#; &#x;"), "&#+65; &#x+41; &#; &#x;");
    assert_eq!(unescape("<amp; &#65;&#x41;"), "<amp; AA");
    let digits: Vec<char> = "#+65".chars().collect();
    assert_eq!(reference(&digits), None);
}
