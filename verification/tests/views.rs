use soundcheck::views::{
    clock_with, filled, hz_parts, remove_marker, tab_name, timeline_columns, wall_with,
};
use soundcheck::wav::Marker;

/// `seconds` in steps of the last of this many decimals.
fn ticks(seconds: f64, decimals: usize) -> u64 {
    (seconds.max(0.0) * 10f64.powi(decimals as i32)).round() as u64
}

fn clock(seconds: f64) -> String {
    clock_with(ticks(seconds, 0), 0)
}

fn clock_fine(seconds: f64) -> String {
    clock_with(ticks(seconds, 2), 2)
}

fn wall(seconds: f64, decimals: usize) -> String {
    wall_with(ticks(seconds.rem_euclid(86_400.0), decimals), decimals)
}

#[test]
fn clocks_format_elapsed_and_wall_time() {
    assert_eq!(clock(364.0), "6:04");
    assert_eq!(clock(3_725.0), "1:02:05");
    assert_eq!(clock_fine(59.994), "0:59.99");
    assert_eq!(wall(61_454.0 + 86_400.0, 0), "17:04:14");
    assert_eq!(wall(86_399.999_6, 3), "00:00:00.000");
    assert_eq!(
        clock_with(u64::MAX, 19),
        "0:01.8446744073709551615"
    );
}

fn parse_hz(text: &str) -> Option<f64> {
    let (number, thousands) = hz_parts(text);
    let value: f64 = number.parse().ok()?;
    if !value.is_finite() || value < 0.0 {
        return None;
    }
    Some(if thousands { value * 1000.0 } else { value })
}

#[test]
fn typed_frequencies_take_k_and_hz() {
    assert_eq!(parse_hz("12000"), Some(12_000.0));
    assert_eq!(parse_hz("12k"), Some(12_000.0));
    assert_eq!(parse_hz(" 12.5 kHz "), Some(12_500.0));
    assert_eq!(parse_hz("440 Hz"), Some(440.0));
    assert_eq!(parse_hz("1,5k"), Some(1_500.0));
    assert_eq!(parse_hz("loud"), None);
    assert_eq!(parse_hz("-3"), None);
}

#[test]
fn a_time_of_day_wraps_at_midnight() {
    assert_eq!(wall_with(86_400, 0), wall_with(0, 0));
    assert_eq!(wall_with(86_399_999, 3), "23:59:59.999");
}

fn marker(id: u32, label: &str) -> Marker {
    Marker {
        id,
        frame: 0,
        length: 0,
        label: label.into(),
        note: String::new(),
    }
}

#[test]
fn marks_have_tabs_and_can_go() {
    assert_eq!(tab_name(&marker(7, "Heron"), 0), "Heron");
    assert!(tab_name(&marker(7, ""), 2).contains('3'));
    let mut marks = vec![marker(1, "a"), marker(2, "b")];
    remove_marker(&mut marks, 1);
    assert_eq!(marks, [marker(2, "b")]);
    remove_marker(&mut marks, 1);
    assert_eq!(marks.len(), 1);
}

#[test]
fn fields_of_blanks_are_not_filled() {
    assert!(!filled(&[]));
    assert!(!filled(&["", "  "]));
    assert!(filled(&["", " x "]));
}

#[test]
fn a_timeline_shows_every_column_somewhere() {
    let (points, columns) = (7, 23);
    let mut seen = [false; 23];
    for p in 0..points {
        let (from, to) = timeline_columns(p, points, columns);
        seen[from..to].iter_mut().for_each(|s| *s = true);
    }
    assert!(seen.iter().all(|s| *s));
}
