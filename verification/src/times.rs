//! That times are written and read as the times they are.

use crate::edit::{clock_of as start_clock_of, day_ms, time_parts_of};
use crate::meta::{
    clock_seconds_of, dashed, date_of, digits_in, real_date, recorded_of, wall_start_of, whole_seconds,
    StartTime, WallStartView,
};
use crate::numerals::{a_written_number_is_read, digits_read_as_their_number, zeros_in_front_only_widen};
use crate::panels::picking_out_keeps_the_others;
use crate::pattern::Moment;
use crate::rename::retained;
use crate::text::{
    a_text_splits_at_its_separators, digit, digits_of, number_in, parsed, split_of, tidy, trim_of,
    trimming_cuts_only_white_space, white, zero_padded,
};
use crate::views::{clock_of, ten_to, wall_of};
use crate::wav::BextView;
use vstd::prelude::*;
use vstd::utf8::{is_ascii_chars, is_ascii_chars_encode_utf8};

verus! {

proof fn lemma_ten_to(n: nat)
    ensures
        ten_to(n) > 0,
    decreases n,
{
    if n > 0 {
        lemma_ten_to((n - 1) as nat);
    }
}

/// A time of two digits.
pub open spec fn two(n: nat) -> Seq<char> {
    zero_padded(digits_of(n), 2)
}

proof fn lemma_time_apart(whole: nat, part: nat, scale: nat)
    requires
        part < scale,
    ensures
        (whole * scale + part) / scale == whole,
        (whole * scale + part) % scale == part,
{
    assert((whole * scale + part) / scale == whole && (whole * scale + part) % scale == part)
        by (nonlinear_arith)
        requires
            part < scale,
    ;
}

/// A length of time shows its hours, where there are any, its minutes, its
/// seconds and as many decimals as were asked for.
pub proof fn a_length_of_time_shows_its_parts(h: nat, m: nat, s: nat, part: nat, decimals: nat)
    requires
        m < 60,
        s < 60,
        part < ten_to(decimals),
    ensures
        clock_of((h * 3600 + m * 60 + s) * ten_to(decimals) + part, decimals) == (if h > 0 {
            digits_of(h) + seq![':'] + two(m) + seq![':'] + two(s)
        } else {
            digits_of(m) + seq![':'] + two(s)
        }) + if decimals > 0 {
            seq!['.'] + zero_padded(digits_of(part), decimals)
        } else {
            Seq::empty()
        },
{
    let whole = h * 3600 + m * 60 + s;
    lemma_time_apart(whole, part, ten_to(decimals));
    assert(whole / 3600 == h && whole / 60 % 60 == m && whole % 60 == s);
    let text = if h > 0 {
        digits_of(h) + seq![':'] + two(m) + seq![':'] + two(s)
    } else {
        digits_of(m) + seq![':'] + two(s)
    };
    let fraction = zero_padded(digits_of(part), decimals);
    assert(text + Seq::<char>::empty() =~= text);
    assert(text + seq!['.'] + fraction =~= text + (seq!['.'] + fraction));
}

/// A time of day shows its hours, minutes and seconds in two digits each and
/// as many decimals as were asked for, whatever the day.
pub proof fn a_time_of_day_shows_its_parts(
    days: nat,
    h: nat,
    m: nat,
    s: nat,
    part: nat,
    decimals: nat,
)
    requires
        h < 24,
        m < 60,
        s < 60,
        part < ten_to(decimals),
    ensures
        wall_of(
            (days * 86_400 + h * 3600 + m * 60 + s) * ten_to(decimals) + part,
            decimals,
        ) == two(h) + seq![':'] + two(m) + seq![':'] + two(s) + if decimals > 0 {
            seq!['.'] + zero_padded(digits_of(part), decimals)
        } else {
            Seq::empty()
        },
{
    let scale = ten_to(decimals);
    let whole = h * 3600 + m * 60 + s;
    let ticks = (days * 86_400 + whole) * scale + part;
    let day = whole * scale + part;
    assert(ticks == days * (86_400 * scale) + day) by (nonlinear_arith)
        requires
            ticks == (days * 86_400 + whole) * scale + part,
            day == whole * scale + part,
    ;
    assert(day < 86_400 * scale) by (nonlinear_arith)
        requires
            day == whole * scale + part,
            whole < 86_400,
            part < scale,
    ;
    lemma_time_apart(days, day, 86_400 * scale);
    lemma_time_apart(whole, part, scale);
    assert(whole / 3600 == h && whole / 60 % 60 == m && whole % 60 == s);
    let text = two(h) + seq![':'] + two(m) + seq![':'] + two(s);
    let fraction = zero_padded(digits_of(part), decimals);
    assert(text + Seq::<char>::empty() =~= text);
    assert(text + seq!['.'] + fraction =~= text + (seq!['.'] + fraction));
}

proof fn lemma_two(n: nat)
    requires
        n < 100,
    ensures
        two(n).len() == 2,
        digit(two(n)[0]) && digit(two(n)[1]),
        tidy(two(n)),
        number_in(two(n), 10) == Some(n),
        forall|most: nat| most >= 99 ==> #[trigger] parsed(two(n), 10, most) == Some(n),
{
    zeros_in_front_only_widen(n, 2);
    digits_read_as_their_number(n);
    let d = digits_of(n);
    if n < 10 {
        assert(d.len() == 1);
    } else {
        assert(digits_of(n / 10).len() == 1);
        assert(d.len() == 2);
    }
    let t = two(n);
    assert(t.len() == 2);
    if d.len() == 1 {
        assert(t[0] == '0' && t[1] == d[0]);
    }
}

/// The samples since midnight show as the time of day that they make at their
/// rate, down to the thousandth of a second.
pub proof fn samples_show_as_a_time_of_day(samples: u64, rate: u32, h: nat, m: nat, s: nat, ms: nat)
    requires
        h < 24,
        m < 60,
        s < 60,
        ms < 1000,
        day_ms(samples, rate) == ((h * 60 + m) * 60 + s) * 1000 + ms,
    ensures
        start_clock_of(samples, rate) == two(h) + seq![':'] + two(m) + seq![':'] + two(s)
            + seq!['.'] + zero_padded(digits_of(ms), 3),
{
    let n = day_ms(samples, rate);
    assert(n / 3_600_000 == h && n / 60_000 % 60 == m && n / 1000 % 60 == s && n % 1000 == ms);
}

/// So many thousandths of a second past midnight are as many as the samples
/// make at their rate, less whole days.
pub proof fn samples_count_from_midnight(samples: u64, rate: u32, days: nat, ms: nat)
    requires
        rate > 0,
        ms < 86_400_000,
        (days * 86_400_000 + ms) * rate <= samples * 1000 < (days * 86_400_000 + ms + 1) * rate,
        days * 86_400_000 + ms <= u64::MAX,
    ensures
        day_ms(samples, rate) == ms,
{
    let q = days * 86_400_000 + ms;
    let (n, r) = (samples as nat * 1000, rate as nat);
    assert(n / r == q) by (nonlinear_arith)
        requires
            q * r <= n < (q + 1) * r,
            r > 0,
    ;
    assert(q % 86_400_000 == ms);
}

/// A time of day reads as its hours, its minutes and the text of its seconds,
/// and a time that the samples show is one.
pub proof fn a_time_of_day_reads_as_its_parts(h: nat, m: nat, seconds: Seq<char>)
    requires
        h < 100,
        m < 100,
        tidy(seconds),
        seconds.len() > 0,
        !seconds.contains(':'),
    ensures
        time_parts_of(two(h) + seq![':'] + two(m) + seq![':'] + seconds) == if h < 24 && m < 60 {
            Some((h as u64, m as u64, seconds))
        } else {
            None
        },
{
    let text = two(h) + seq![':'] + two(m) + seq![':'] + seconds;
    lemma_two(h);
    lemma_two(m);
    let none = Seq::<char>::empty();
    assert(text[0] == two(h)[0]);
    assert(text.last() == seconds.last());
    assert(tidy(text));
    trimming_cuts_only_white_space(none, text, none);
    assert(none + text + none =~= text);
    let seps = seq![':'];
    assert(seps[0] == ':');
    assert(seps.contains(seps[0]));
    lemma_digits_are_no_separators(h);
    lemma_digits_are_no_separators(m);
    assert forall|i: int| 0 <= i < seconds.len() implies !seps.contains(#[trigger] seconds[i]) by {
        assert(seconds.contains(seconds[i]));
    }
    lemma_three_parts(two(h), ':', two(m), ':', seconds, seps);
    let parts = split_of(text, seps);
    assert(parts[0] == two(h) && parts[1] == two(m) && parts[2] == seconds);
}

proof fn lemma_three_parts(
    a: Seq<char>,
    x: char,
    b: Seq<char>,
    y: char,
    c: Seq<char>,
    seps: Seq<char>,
)
    requires
        seps.contains(x),
        seps.contains(y),
        forall|i: int| 0 <= i < a.len() ==> !seps.contains(#[trigger] a[i]),
        forall|i: int| 0 <= i < b.len() ==> !seps.contains(#[trigger] b[i]),
        forall|i: int| 0 <= i < c.len() ==> !seps.contains(#[trigger] c[i]),
    ensures
        split_of(a + seq![x] + b + seq![y] + c, seps) == seq![a, b, c],
{
    a_text_splits_at_its_separators(a + seq![x] + b, y, c, seps);
    a_text_splits_at_its_separators(a, x, b, seps);
    a_text_splits_at_its_separators(b, x, c, seps);
    a_text_splits_at_its_separators(c, x, c, seps);
    assert(seq![a] + seq![b] + seq![c] =~= seq![a, b, c]);
}

proof fn lemma_digits_are_no_separators(n: nat)
    requires
        n < 100,
    ensures
        forall|i: int|
            0 <= i < two(n).len() ==> !seq![':', '-', '.'].contains(#[trigger] two(n)[i]),
        forall|i: int| 0 <= i < two(n).len() ==> !seq![':'].contains(#[trigger] two(n)[i]),
        trim_of(two(n)) == two(n),
{
    lemma_two(n);
    let none = Seq::<char>::empty();
    trimming_cuts_only_white_space(none, two(n), none);
    assert(none + two(n) + none =~= two(n));
    assert forall|i: int| 0 <= i < two(n).len() implies !seq![':', '-', '.'].contains(
        #[trigger] two(n)[i],
    ) && !seq![':'].contains(two(n)[i]) by {
        assert(digit(two(n)[i]));
    }
}

/// A recording time reads as the seconds since midnight, whichever of the
/// three separators stand in it, and one that no clock shows does not read.
pub proof fn a_recording_time_reads_in_seconds(h: nat, m: nat, s: nat, x: char, y: char)
    requires
        h < 100,
        m < 100,
        s < 100,
        x == ':' || x == '-' || x == '.',
        y == ':' || y == '-' || y == '.',
    ensures
        clock_seconds_of(two(h) + seq![x] + two(m) + seq![y] + two(s)) == if h < 24 && m < 60 && s
            < 60 {
            Some((h * 3600 + m * 60 + s) as u32)
        } else {
            None
        },
{
    let seps = seq![':', '-', '.'];
    assert(seps[0] == ':' && seps[1] == '-' && seps[2] == '.');
    assert(seps.contains(seps[0]) && seps.contains(seps[1]) && seps.contains(seps[2]));
    lemma_digits_are_no_separators(h);
    lemma_digits_are_no_separators(m);
    lemma_digits_are_no_separators(s);
    lemma_two(h);
    lemma_two(m);
    lemma_two(s);
    lemma_three_parts(two(h), x, two(m), y, two(s), seps);
    let parts = split_of(two(h) + seq![x] + two(m) + seq![y] + two(s), seps);
    assert(parts[0] == two(h) && parts[1] == two(m) && parts[2] == two(s));
}

/// A year of four digits.
pub open spec fn four(n: nat) -> Seq<char> {
    zero_padded(digits_of(n), 4)
}

proof fn lemma_four(n: nat)
    requires
        n < 10_000,
    ensures
        four(n).len() == 4,
        forall|i: int| 0 <= i < 4 ==> digit(#[trigger] four(n)[i]),
        forall|most: nat| most >= 9999 ==> #[trigger] parsed(four(n), 10, most) == Some(n),
{
    zeros_in_front_only_widen(n, 4);
    digits_read_as_their_number(n);
    lemma_at_most_four(n);
    let d = digits_of(n);
    let t = four(n);
    let k = 4 - d.len();
    assert forall|i: int| 0 <= i < 4 implies digit(#[trigger] t[i]) by {
        if i >= k {
            assert(t[i] == d[i - k]);
        }
    }
}

proof fn lemma_at_most_four(n: nat)
    requires
        n < 10_000,
    ensures
        1 <= digits_of(n).len() <= 4,
{
    let (a, b, c) = (n / 10, n / 10 / 10, n / 10 / 10 / 10);
    assert(c < 10);
    assert(digits_of(c).len() == 1);
    assert(digits_of(b).len() <= 2);
    assert(digits_of(a).len() <= 3);
}

proof fn lemma_digits_stay(s: Seq<char>)
    requires
        forall|i: int| 0 <= i < s.len() ==> digit(#[trigger] s[i]),
    ensures
        digits_in(s) == s,
{
    let keep = |c: char| digit(c);
    assert forall|i: int| 0 <= i < s.len() implies keep(#[trigger] s[i]) by {
        assert(digit(s[i]));
    }
    picking_out_keeps_the_others(s, Seq::empty(), keep);
}

proof fn lemma_digits_apart(a: Seq<char>, c: char, b: Seq<char>)
    requires
        forall|i: int| 0 <= i < a.len() ==> digit(#[trigger] a[i]),
        !digit(c),
    ensures
        digits_in(a + seq![c] + b) == a + digits_in(b),
{
    let keep = |c: char| digit(c);
    picking_out_keeps_the_others(a + seq![c], b, keep);
    picking_out_keeps_the_others(a, seq![c], keep);
    lemma_digits_stay(a);
    let one = seq![c];
    assert(one.drop_last() =~= Seq::<char>::empty());
    assert(one.last() == c);
    assert(!keep(c));
    assert(retained(one.drop_last(), keep) == one.drop_last());
    assert(retained(one, keep) =~= Seq::<char>::empty());
    assert(a + Seq::<char>::empty() =~= a);
}

/// A recording began on the day that its date says, at the time of day that its
/// start says, where there is such a day.
pub proof fn a_recording_began_when_it_says(
    year: nat,
    month: nat,
    day: nat,
    x: char,
    y: char,
    time: StartTime,
)
    requires
        year < 10_000,
        month < 100,
        day < 100,
        !digit(x),
        !digit(y),
    ensures
        ({
            let date = four(year) + seq![x] + two(month) + seq![y] + two(day);
            let began = recorded_of(WallStartView { date: Some(date), time });
            &&& began is Some <==> real_date(year, month, day)
            &&& began matches Some(at) ==> {
                &&& at.year == year && at.month == month && at.day == day
                &&& at.hour < 24 && at.minute < 60 && at.second < 60 && at.nano == 0
                &&& (at.hour * 60 + at.minute) * 60 + at.second == whole_seconds(time) % 86_400
            }
        }),
        recorded_of(WallStartView { date: None, time }) is None,
{
    let date = four(year) + seq![x] + two(month) + seq![y] + two(day);
    lemma_four(year);
    lemma_two(month);
    lemma_two(day);
    let tail = two(month) + seq![y] + two(day);
    assert(date =~= four(year) + seq![x] + tail);
    lemma_digits_apart(four(year), x, tail);
    lemma_digits_apart(two(month), y, two(day));
    lemma_digits_stay(two(day));
    let d = digits_in(date);
    assert(d =~= four(year) + two(month) + two(day));
    assert(d.subrange(0, 4) =~= four(year));
    assert(d.subrange(4, 6) =~= two(month));
    assert(d.subrange(6, 8) =~= two(day));
}

/// A start in samples is as many whole seconds as they last at their rate.
pub proof fn samples_last_whole_seconds(count: u64, rate: u32, seconds: u32)
    requires
        rate > 0,
        seconds * rate <= count < (seconds + 1) * rate,
    ensures
        whole_seconds(StartTime::Samples { count, rate }) == seconds,
        whole_seconds(StartTime::Seconds(seconds)) == seconds,
{
    let (n, r, q) = (count as nat, rate as nat, seconds as nat);
    assert(n / r == q) by (nonlinear_arith)
        requires
            q * r <= n < (q + 1) * r,
            r > 0,
    ;
}

/// A year has twelve months of thirty or thirty-one days, but for February,
/// which has a day more every fourth year, less three in four centuries.
pub proof fn the_calendar(year: nat, month: nat, day: nat)
    ensures
        real_date(year, month, day) ==> 1 <= month <= 12 && 1 <= day <= 31,
        1 <= month <= 12 && 1 <= day <= 28 ==> real_date(year, month, day),
        real_date(year, 2, 29) <==> (year % 400 == 0 || (year % 4 == 0 && year % 100 != 0)),
        !real_date(year, 2, 30),
        1 <= month <= 12 && month != 2 ==> real_date(year, month, 30),
        real_date(year, month, 31) <==> (month == 1 || month == 3 || month == 5 || month == 7 || month
            == 8 || month == 10 || month == 12),
{
}

/// A recording starts at the samples since midnight where they are given, and
/// otherwise at the time of day it was made.
pub proof fn a_recording_starts_at_its_samples(b: BextView, rate: u32)
    ensures
        b.time_reference > 0 ==> wall_start_of(b, rate) == Some(
            WallStartView {
                date: date_of(b.origination_date),
                time: StartTime::Samples { count: b.time_reference, rate },
            },
        ),
        b.time_reference == 0 ==> (wall_start_of(b, rate) is Some <==> clock_seconds_of(
            b.origination_time,
        ) is Some),
        b.time_reference == 0 && clock_seconds_of(b.origination_time) is Some ==> wall_start_of(
            b,
            rate,
        ) == Some(
            WallStartView {
                date: date_of(b.origination_date),
                time: StartTime::Seconds(clock_seconds_of(b.origination_time)->0),
            },
        ),
{
}

/// A date is shown with dashes, whichever of four separators it was written
/// with, and what is no date of ten characters is none.
pub proof fn a_date_is_shown_with_dashes(year: nat, month: nat, day: nat, x: char, y: char)
    requires
        year < 10_000,
        month < 100,
        day < 100,
        x == ':' || x == '/' || x == '.' || x == '-',
        y == ':' || y == '/' || y == '.' || y == '-',
    ensures
        date_of(four(year) + seq![x] + two(month) + seq![y] + two(day)) == Some(
            four(year) + seq!['-'] + two(month) + seq!['-'] + two(day),
        ),
        date_of(Seq::empty()) is None,
        date_of(two(month) + seq![y] + two(day)) is None,
{
    lemma_four(year);
    lemma_two(month);
    lemma_two(day);
    let s = four(year) + seq![x] + two(month) + seq![y] + two(day);
    let r = four(year) + seq!['-'] + two(month) + seq!['-'] + two(day);
    let none = Seq::<char>::empty();
    assert(s[0] == four(year)[0]);
    assert(s.last() == two(day)[1]);
    trimming_cuts_only_white_space(none, s, none);
    assert(none + s + none =~= s);
    let dashed_s = s.map_values(|c: char| dashed(c));
    assert forall|i: int| 0 <= i < 10 implies #[trigger] dashed_s[i] == r[i] by {
        if i < 4 {
            assert(s[i] == four(year)[i]);
            assert(digit(four(year)[i]));
        } else if i == 4 {
            assert(s[4] == x);
        } else if i < 7 {
            assert(s[i] == two(month)[i - 5]);
        } else if i == 7 {
            assert(s[7] == y);
        } else {
            assert(s[i] == two(day)[i - 8]);
        }
    }
    assert(dashed_s =~= r);
    assert forall|i: int| 0 <= i < r.len() implies '\0' <= #[trigger] r[i] <= '\u{7f}' by {
        if i < 4 {
            assert(r[i] == four(year)[i]);
            assert(digit(four(year)[i]));
        } else if 5 <= i < 7 {
            assert(r[i] == two(month)[i - 5]);
        } else if i >= 8 {
            assert(r[i] == two(day)[i - 8]);
        }
    }
    assert(is_ascii_chars(r));
    is_ascii_chars_encode_utf8(r);
    trimming_cuts_only_white_space(none, none, none);
    assert(none + none + none =~= none);
    let empty = none.map_values(|c: char| dashed(c));
    assert(empty =~= none);
    assert(is_ascii_chars(none));
    is_ascii_chars_encode_utf8(none);
    let t = two(month) + seq![y] + two(day);
    assert(t[0] == two(month)[0]);
    assert(t.last() == two(day)[1]);
    trimming_cuts_only_white_space(none, t, none);
    assert(none + t + none =~= t);
    let u = t.map_values(|c: char| dashed(c));
    assert forall|i: int| 0 <= i < u.len() implies '\0' <= #[trigger] u[i] <= '\u{7f}' by {
        if i < 2 {
            assert(t[i] == two(month)[i]);
        } else if i == 2 {
            assert(t[2] == y);
        } else {
            assert(t[i] == two(day)[i - 3]);
        }
    }
    assert(is_ascii_chars(u));
    is_ascii_chars_encode_utf8(u);
}

} // verus!
