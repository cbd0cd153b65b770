//! What views show as text, and which parts of a file each point of a
//! timeline stands for.

use crate::text::{
    chars, decimal, digits_of, extend, lower, lowered, part, put_padded, same_chars, string, trim,
    trim_chars, trim_end_of, trim_of, zero_padded,
};
use crate::rename::{replace_literal, replaced_of};
use crate::wav::{least, marks, Marker, MarkerView};
use vstd::prelude::*;

verus! {

/// Ten to the power of `n`.
pub open spec fn ten_to(n: nat) -> nat
    decreases n,
{
    if n == 0 {
        1
    } else {
        10 * ten_to((n - 1) as nat)
    }
}

proof fn lemma_ten_to(n: nat)
    requires
        n <= 19,
    ensures
        1 <= ten_to(n) <= 10_000_000_000_000_000_000,
        n <= 14 ==> ten_to(n) <= 100_000_000_000_000,
        n == 0 ==> ten_to(n) == 1,
{
    reveal_with_fuel(ten_to, 21);
}

fn power_of_ten(n: usize) -> (r: u64)
    requires
        n <= 19,
    ensures
        r == ten_to(n as nat),
        1 <= r,
        n <= 14 ==> r <= 100_000_000_000_000,
{
    let mut r: u64 = 1;
    let mut i: usize = 0;
    while i < n
        invariant
            i <= n <= 19,
            r == ten_to(i as nat),
        decreases n - i,
    {
        proof {
            lemma_ten_to((i + 1) as nat);
        }
        r = 10 * r;
        i = i + 1;
    }
    proof {
        lemma_ten_to(n as nat);
    }
    r
}

/// Elapsed time as `m:ss`, or `h:mm:ss` from an hour on, with this many
/// decimals: `ticks` is how many of the last of them there are.
pub open spec fn clock_of(ticks: nat, decimals: nat) -> Seq<char> {
    let scale = ten_to(decimals);
    let whole = ticks / scale;
    let (h, m, s) = (whole / 3600, whole / 60 % 60, whole % 60);
    let text = if h > 0 {
        digits_of(h) + seq![':'] + zero_padded(digits_of(m), 2) + seq![':'] + zero_padded(
            digits_of(s),
            2,
        )
    } else {
        digits_of(m) + seq![':'] + zero_padded(digits_of(s), 2)
    };
    if decimals > 0 {
        text + seq!['.'] + zero_padded(digits_of(ticks % scale), decimals)
    } else {
        text
    }
}

/// Elapsed time as `m:ss`, or `h:mm:ss` from an hour on, with this many
/// decimals: `ticks` is how many of the last of them there are.
pub fn clock_with(ticks: u64, decimals: usize) -> (r: String)
    requires
        decimals <= 19,
    ensures
        r@ == clock_of(ticks as nat, decimals as nat),
{
    let scale: u64 = power_of_ten(decimals);
    let whole: u64 = ticks / scale;
    let h: u64 = whole / 3600;
    let m: u64 = whole / 60 % 60;
    let s: u64 = whole % 60;
    let mut out: Vec<char> = Vec::new();
    if h > 0 {
        let d = decimal(h);
        extend(&mut out, d.as_slice());
        out.push(':');
        put_padded(&mut out, m, 2);
    } else {
        let d = decimal(m);
        extend(&mut out, d.as_slice());
    }
    out.push(':');
    put_padded(&mut out, s, 2);
    if decimals > 0 {
        out.push('.');
        put_padded(&mut out, ticks % scale, decimals);
    }
    assert(out@ =~= clock_of(ticks as nat, decimals as nat));
    string(out.as_slice())
}

/// Time of day, wrapping past midnight, with this many decimals: `ticks` is
/// how many of the last of them there are.
pub open spec fn wall_of(ticks: nat, decimals: nat) -> Seq<char> {
    let scale = ten_to(decimals);
    let day = ticks % (86_400 * scale);
    let whole = day / scale;
    let text = zero_padded(digits_of(whole / 3600), 2) + seq![':'] + zero_padded(
        digits_of(whole / 60 % 60),
        2,
    ) + seq![':'] + zero_padded(digits_of(whole % 60), 2);
    if decimals > 0 {
        text + seq!['.'] + zero_padded(digits_of(day % scale), decimals)
    } else {
        text
    }
}

/// Time of day, wrapping past midnight, with this many decimals: `ticks` is
/// how many of the last of them there are.
pub fn wall_with(ticks: u64, decimals: usize) -> (r: String)
    requires
        decimals <= 14,
    ensures
        r@ == wall_of(ticks as nat, decimals as nat),
{
    let scale: u64 = power_of_ten(decimals);
    let day: u64 = ticks % (86_400 * scale);
    let whole: u64 = day / scale;
    let mut out: Vec<char> = Vec::new();
    put_padded(&mut out, whole / 3600, 2);
    out.push(':');
    put_padded(&mut out, whole / 60 % 60, 2);
    out.push(':');
    put_padded(&mut out, whole % 60, 2);
    if decimals > 0 {
        out.push('.');
        put_padded(&mut out, day % scale, decimals);
    }
    assert(out@ =~= wall_of(ticks as nat, decimals as nat));
    string(out.as_slice())
}

/// A day later the time of day is the same.
pub proof fn the_time_of_day_wraps(ticks: nat, decimals: nat)
    requires
        decimals <= 14,
    ensures
        wall_of(ticks + 86_400 * ten_to(decimals), decimals) == wall_of(ticks, decimals),
{
    lemma_ten_to(decimals);
    let d = (86_400 * ten_to(decimals)) as int;
    let t = ticks as int;
    assert((t + d) % d == t % d) by (nonlinear_arith)
        requires
            d > 0,
            t >= 0,
    ;
}

/// The number of a frequency as it is typed, and whether it is in thousands:
/// `12000`, `12k`, `12.5 kHz`, `440 Hz`, `1,5k`.
pub open spec fn hz_parts_of(text: Seq<char>) -> (Seq<char>, bool) {
    let s = replaced_of(lowered(trim_of(text)), seq![','], seq!['.']);
    let bare = trim_end_of(
        if s.len() >= 2 && s.skip(s.len() - 2) == seq!['h', 'z'] {
            s.take(s.len() - 2)
        } else {
            s
        },
    );
    if bare.len() > 0 && bare.last() == 'k' {
        (trim_of(bare.drop_last()), true)
    } else {
        (trim_of(bare), false)
    }
}

fn trim_end_chars(v: &[char]) -> (r: Vec<char>)
    ensures
        r@ == trim_end_of(v@),
{
    let mut end: usize = v.len();
    assert(v@.take(end as int) =~= v@);
    while end > 0 && crate::text::is_white(v[end - 1])
        invariant
            end <= v@.len(),
            trim_end_of(v@) == trim_end_of(v@.take(end as int)),
        decreases end,
    {
        assert(v@.take(end as int).drop_last() =~= v@.take(end - 1));
        assert(v@.take(end as int).last() == v@[end - 1]);
        end = end - 1;
    }
    proof {
        if end > 0 {
            assert(v@.take(end as int).last() == v@[end - 1]);
        }
    }
    let r = part(v, 0, end);
    assert(r@ =~= v@.take(end as int));
    r
}

/// The number of a frequency as it is typed, and whether it is in thousands.
pub fn hz_parts(text: &str) -> (r: (String, bool))
    ensures
        (r.0@, r.1) == hz_parts_of(text@),
{
    let t = trim(text);
    let l = lower(t.as_str());
    let v = chars(l.as_str());
    let comma: [char; 1] = [','];
    let point: [char; 1] = ['.'];
    let unit: [char; 2] = ['h', 'z'];
    proof {
        assert(comma@ =~= seq![',']);
        assert(point@ =~= seq!['.']);
        assert(unit@ =~= seq!['h', 'z']);
    }
    let s = replace_literal(v.as_slice(), comma.as_slice(), point.as_slice());
    let n: usize = s.len();
    let mut end: usize = n;
    if n >= 2 {
        let tail = part(s.as_slice(), n - 2, n);
        assert(tail@ =~= s@.skip(n - 2));
        if same_chars(tail.as_slice(), unit.as_slice()) {
            end = n - 2;
        }
    }
    let head = part(s.as_slice(), 0, end);
    assert(head@ =~= if n >= 2 && s@.skip(n - 2) == seq!['h', 'z'] {
        s@.take(n - 2)
    } else {
        s@
    });
    let bare = trim_end_chars(head.as_slice());
    let m: usize = bare.len();
    if m > 0 && bare[m - 1] == 'k' {
        let number = part(bare.as_slice(), 0, m - 1);
        assert(number@ =~= bare@.drop_last());
        let number = trim_chars(number.as_slice());
        (string(number.as_slice()), true)
    } else {
        let number = trim_chars(bare.as_slice());
        (string(number.as_slice()), false)
    }
}

/// What a marker's tab says: its name, cut short where it is long, or its
/// number where it has none.
pub open spec fn tab_of(label: Seq<char>, index: nat) -> Seq<char> {
    if label.len() == 0 {
        digits_of(index + 1)
    } else if label.len() <= 24 {
        label
    } else {
        label.take(23).push('…')
    }
}

/// What the tab of the marker at `index` says.
pub fn tab_name(m: &Marker, index: usize) -> (r: String)
    requires
        index < usize::MAX,
    ensures
        r@ == tab_of(m@.label, index as nat),
{
    let v = chars(m.label.as_str());
    if v.len() == 0 {
        let d = decimal((index + 1) as u64);
        string(d.as_slice())
    } else if v.len() <= 24 {
        m.label.clone()
    } else {
        let mut short = part(v.as_slice(), 0, 23);
        short.push('…');
        assert(short@ =~= m.label@.take(23).push('…'));
        string(short.as_slice())
    }
}

/// Whether any of these fields holds more than spaces.
pub fn filled(values: &[&str]) -> (r: bool)
    ensures
        r == exists|i: int| 0 <= i < values@.len() && trim_of((#[trigger] values@[i])@).len() > 0,
{
    let mut i: usize = 0;
    while i < values.len()
        invariant
            i <= values@.len(),
            forall|j: int| 0 <= j < i ==> trim_of((#[trigger] values@[j])@).len() == 0,
        decreases values@.len() - i,
    {
        let t = trim(values[i]);
        if !t.as_str().is_empty() {
            assert(trim_of(values@[i as int]@).len() > 0);
            return true;
        }
        i = i + 1;
    }
    false
}

/// The columns that point `p` of `points` along a timeline stands for, of
/// `columns` there are: from the first up to the last, at least one.
pub open spec fn columns_at(p: int, points: int, columns: int) -> (int, int) {
    let first = least((p * columns) / points, columns - 1);
    let upto = ((p + 1) * columns + points - 1) / points;
    (
        first,
        if upto < first + 1 {
            first + 1
        } else {
            least(upto, columns)
        },
    )
}

/// The columns that point `p` of `points` along a timeline stands for.
pub fn timeline_columns(p: usize, points: usize, columns: usize) -> (r: (usize, usize))
    requires
        p < points,
        columns > 0,
    ensures
        (r.0 as int, r.1 as int) == columns_at(p as int, points as int, columns as int),
        r.0 < r.1 <= columns,
{
    let n: u128 = points as u128;
    let c: u128 = columns as u128;
    proof {
        assert(0 <= p * c <= usize::MAX * usize::MAX) by (nonlinear_arith)
            requires
                0 <= p <= usize::MAX,
                0 <= c <= usize::MAX,
        ;
        assert((p + 1) * c == p * c + c) by (nonlinear_arith);
        assert(p * c / n as int <= p * c) by (nonlinear_arith)
            requires
                n > 0,
                p * c >= 0,
        ;
    }
    let a: u128 = (p as u128) * c / n;
    let first: usize = if a < (columns - 1) as u128 {
        a as usize
    } else {
        columns - 1
    };
    let b: u128 = ((p as u128) * c + c + (n - 1)) / n;
    let last: usize = if b < first as u128 + 1 {
        first + 1
    } else if b < c {
        b as usize
    } else {
        columns
    };
    (first, last)
}

/// Every column of a file is shown by some point of the timeline: each point
/// starts no later than where the one before it ended, from the first column
/// on and up to the last.
pub proof fn a_timeline_shows_every_column(p: int, points: int, columns: int)
    requires
        0 <= p < points,
        columns > 0,
    ensures
        columns_at(0, points, columns).0 == 0,
        p + 1 < points ==> columns_at(p + 1, points, columns).0 <= columns_at(
            p,
            points,
            columns,
        ).1,
        columns_at(points - 1, points, columns).1 == columns,
{
    let next = ((p + 1) * columns) / points;
    let upto = ((p + 1) * columns + points - 1) / points;
    assert(next <= upto) by (nonlinear_arith)
        requires
            next == ((p + 1) * columns) / points,
            upto == ((p + 1) * columns + points - 1) / points,
            points > 0,
    ;
    assert((0 * columns) / points == 0) by (nonlinear_arith)
        requires
            points > 0,
    ;
    let last = ((points - 1 + 1) * columns + points - 1) / points;
    assert(last == columns) by (nonlinear_arith)
        requires
            last == ((points - 1 + 1) * columns + points - 1) / points,
            points > 0,
            columns > 0,
    ;
}

/// What the list of markers asks for.
#[derive(Debug, Clone, Copy, PartialEq, Eq, Structural)]
pub enum MarkerAction {
    Seek(usize),
    Remove(u32),
}

/// The marks but those of this id.
pub open spec fn without_mark(s: Seq<MarkerView>, id: u32) -> Seq<MarkerView>
    decreases s.len(),
{
    if s.len() == 0 {
        s
    } else if s.last().id == id {
        without_mark(s.drop_last(), id)
    } else {
        without_mark(s.drop_last(), id).push(s.last())
    }
}

/// Removes the mark of this id.
pub fn remove_marker(markers: &mut Vec<Marker>, id: u32)
    ensures
        marks(final(markers)@) == without_mark(marks(old(markers)@), id),
{
    let ghost all = marks(markers@);
    let mut out: Vec<Marker> = Vec::new();
    let mut i: usize = 0;
    proof {
        assert(all.take(0) =~= Seq::<MarkerView>::empty());
        assert(marks(out@) =~= without_mark(all.take(0), id));
    }
    while i < markers.len()
        invariant
            i <= markers@.len(),
            all == marks(markers@),
            marks(out@) == without_mark(all.take(i as int), id),
        decreases markers@.len() - i,
    {
        proof {
            assert(all.take(i + 1).drop_last() =~= all.take(i as int));
            assert(all.take(i + 1).last() == markers@[i as int]@);
        }
        if markers[i].id != id {
            let ghost before = marks(out@);
            let m = markers[i].clone();
            let ghost v = m@;
            out.push(m);
            assert(marks(out@) =~= before.push(v));
        }
        i = i + 1;
    }
    assert(all.take(i as int) =~= all);
    *markers = out;
}

} // verus!
