//! What is typed into the window, and what is taken from it.

use crate::edit::{
    bext_base, changes_of, crlf_of, edits_of, fields_written, has_id, kept_info, known_id,
    known_info, leaves_of, leaves_upto, lf_of, namesakes, number_of, number_or_0, numbered_of,
    shown_info, sync_point_of, sync_points_upto, time_parts_of, EditsView, BEXT_FIELDS,
};
use crate::meta::INFO_FIELDS;
use crate::numerals::digits_read_as_their_number;
use crate::panels::{barred, stands_at, the_first_find_is_replaced, what_is_not_found_is_not_replaced};
use crate::path::{file_name_of, last_of, lemma_last_before, renaming_stays_in_the_folder};
use crate::playback::{speed_mark, speed_parts_of, unmarked_end, unmarked_start};
use crate::rename::{is_char, replaced_of, reserved_of};
use crate::save::{can_be_a_name, rename_of, rename_target_of, temp_path_of, RenamingView};
use crate::text::{
    control, digits_of, lemma_trimmed, lowered, tidy, trim_end_of, trim_of,
    trimming_cuts_only_white_space, white,
};
use crate::views::{hz_parts_of, tab_of, without_mark};
use crate::wav::{first_index, lemma_first_index, MarkerView, WavView};
use crate::xml::Node;
use vstd::prelude::*;
use vstd::utf8::encode_utf8;

verus! {

proof fn lemma_stays_trimmed(s: Seq<char>)
    requires
        tidy(s),
    ensures
        trim_of(s) == s,
        trim_end_of(s) == s,
{
    let none = Seq::<char>::empty();
    trimming_cuts_only_white_space(none, s, none);
    assert(none + s + none =~= s);
}

/// A frequency is typed with its unit, in hertz or in thousands of them, or
/// without any, and reads as its number; a comma in it is a point.
pub proof fn a_frequency_is_typed_with_its_unit(text: Seq<char>, a: Seq<char>, b: Seq<char>)
    requires
        !a.contains(','),
        !b.contains(','),
        tidy(a + seq!['.'] + b),
        a.len() > 0,
        b.len() > 0,
        b.last() != 'k',
        b.last() != 'z',
    ensures
        ({
            let typed = lowered(trim_of(text));
            let number = a + seq!['.'] + b;
            &&& typed == a + seq![','] + b ==> hz_parts_of(text) == (number, false)
            &&& typed == a + seq![','] + b + seq!['h', 'z'] ==> hz_parts_of(text) == (number, false)
            &&& typed == a + seq![','] + b + seq![' ', 'h', 'z'] ==> hz_parts_of(text) == (
                number,
                false,
            )
            &&& typed == a + seq![','] + b + seq!['k'] ==> hz_parts_of(text) == (number, true)
            &&& typed == a + seq![','] + b + seq!['k', 'h', 'z'] ==> hz_parts_of(text) == (
                number,
                true,
            )
            &&& typed == a + seq![','] + b + seq![' ', 'k', 'h', 'z'] ==> hz_parts_of(text) == (
                number,
                true,
            )
        }),
{
    let none = Seq::<char>::empty();
    lemma_unit(a, b, none);
    lemma_unit(a, b, seq!['h', 'z']);
    lemma_unit(a, b, seq![' ', 'h', 'z']);
    lemma_unit(a, b, seq!['k']);
    lemma_unit(a, b, seq!['k', 'h', 'z']);
    lemma_unit(a, b, seq![' ', 'k', 'h', 'z']);
    let number = a + seq!['.'] + b;
    assert(a + seq![','] + b + none =~= a + seq![','] + b);
    assert(number + none =~= number);
    lemma_stays_trimmed(number);
    assert(number.last() == b.last());
    let s1 = number + seq!['h', 'z'];
    assert(s1.skip(s1.len() - 2) =~= seq!['h', 'z']);
    assert(s1.take(s1.len() - 2) =~= number);
    if number.len() >= 2 {
        let end = number.skip(number.len() - 2);
        assert(end[1] == number.last());
        assert(seq!['h', 'z'][1] == 'z');
        assert(end != seq!['h', 'z']);
    }
    let s2 = number + seq![' ', 'h', 'z'];
    assert(s2.skip(s2.len() - 2) =~= seq!['h', 'z']);
    assert(s2.take(s2.len() - 2) =~= number.push(' '));
    assert(number.push(' ').drop_last() =~= number);
    assert(trim_end_of(number.push(' ')) == number);
    let s3 = number + seq!['k'];
    let end3 = s3.skip(s3.len() - 2);
    assert(end3[1] == 'k');
    assert(end3 != seq!['h', 'z']);
    assert(s3 =~= number.push('k'));
    assert(trim_end_of(s3) == s3);
    assert(s3.drop_last() =~= number);
    let s4 = number + seq!['k', 'h', 'z'];
    assert(s4.skip(s4.len() - 2) =~= seq!['h', 'z']);
    assert(s4.take(s4.len() - 2) =~= number.push('k'));
    assert(trim_end_of(number.push('k')) == number.push('k'));
    let s5 = number + seq![' ', 'k', 'h', 'z'];
    assert(s5.skip(s5.len() - 2) =~= seq!['h', 'z']);
    assert(s5.take(s5.len() - 2) =~= number.push(' ').push('k'));
    assert(number.push(' ').push('k').drop_last() =~= number.push(' '));
    assert(trim_end_of(number.push(' ').push('k')) == number.push(' ').push('k'));
    trimming_cuts_only_white_space(none, number, seq![' ']);
    assert(none + number + seq![' '] =~= number.push(' '));
}

proof fn lemma_unit(a: Seq<char>, b: Seq<char>, unit: Seq<char>)
    requires
        !a.contains(','),
        !b.contains(','),
        !unit.contains(','),
    ensures
        replaced_of(a + seq![','] + b + unit, seq![','], seq!['.']) == a + seq!['.'] + b + unit,
{
    let comma = seq![','];
    let rest = b + unit;
    let s = a + comma + rest;
    assert(a + comma + b + unit =~= s);
    assert forall|at: int| 0 <= at < a.len() implies !#[trigger] stands_at(s, comma, at) by {
        assert(s.subrange(at, at + 1)[0] == a[at]);
        assert(a.contains(a[at]));
        assert(comma[0] == ',');
    }
    the_first_find_is_replaced(a, comma, rest, seq!['.']);
    assert forall|at: int| !#[trigger] stands_at(rest, comma, at) by {
        if stands_at(rest, comma, at) {
            assert(rest.subrange(at, at + 1)[0] == rest[at]);
            assert(comma[0] == ',');
            if at < b.len() {
                assert(b.contains(b[at]));
            } else {
                assert(unit.contains(unit[at - b.len()]));
            }
        }
    }
    what_is_not_found_is_not_replaced(rest, comma, seq!['.']);
    assert(a + seq!['.'] + rest =~= a + seq!['.'] + b + unit);
}

/// A mark's tab shows its label, cut short where it is long, and its number in
/// the row where it has none.
pub proof fn a_tab_shows_its_label(label: Seq<char>, index: nat)
    ensures
        tab_of(label, index).len() > 0,
        label.len() > 0 ==> tab_of(label, index).len() <= 24,
        0 < label.len() <= 24 ==> tab_of(label, index) == label,
        label.len() > 24 ==> tab_of(label, index).drop_last() == label.take(23) && tab_of(
            label,
            index,
        ).last() == '…',
        label.len() == 0 ==> tab_of(label, index) == digits_of(index + 1),
{
    digits_read_as_their_number(index + 1);
    if label.len() > 24 {
        assert(tab_of(label, index).drop_last() =~= label.take(23));
    }
}

/// Taking a mark away leaves every other, in order, and none with its id.
pub proof fn taking_a_mark_leaves_the_others(a: Seq<MarkerView>, b: Seq<MarkerView>, id: u32)
    ensures
        without_mark(a + b, id) == without_mark(a, id) + without_mark(b, id),
        (forall|i: int| 0 <= i < a.len() ==> (#[trigger] a[i]).id != id) ==> without_mark(a, id)
            == a,
        (forall|i: int| 0 <= i < a.len() ==> (#[trigger] a[i]).id == id) ==> without_mark(
            a,
            id,
        ).len() == 0,
        forall|i: int|
            0 <= i < without_mark(a, id).len() ==> (#[trigger] without_mark(a, id)[i]).id != id,
    decreases a.len() + b.len(),
{
    if b.len() > 0 {
        taking_a_mark_leaves_the_others(a, b.drop_last(), id);
        assert((a + b).drop_last() =~= a + b.drop_last());
        assert((a + b).last() == b.last());
        assert(without_mark(a + b, id) =~= without_mark(a, id) + without_mark(b, id));
    } else {
        assert(a + b =~= a);
        assert(without_mark(a, id) + without_mark(b, id) =~= without_mark(a, id));
        if a.len() > 0 {
            let rest = a.drop_last();
            taking_a_mark_leaves_the_others(rest, b, id);
            let last = a[a.len() - 1];
            if forall|i: int| 0 <= i < a.len() ==> (#[trigger] a[i]).id != id {
                assert forall|i: int| 0 <= i < rest.len() implies (#[trigger] rest[i]).id != id by {
                    assert(rest[i] == a[i]);
                }
                assert(last.id != id);
                assert(without_mark(a, id) =~= a);
            }
            if forall|i: int| 0 <= i < a.len() ==> (#[trigger] a[i]).id == id {
                assert forall|i: int| 0 <= i < rest.len() implies (#[trigger] rest[i]).id == id by {
                    assert(rest[i] == a[i]);
                }
                assert(last.id == id);
            }
        }
    }
}

/// Entries that hold something are kept, trimmed, in their order, and blank
/// ones are not.
pub proof fn only_blank_entries_are_dropped(
    a: Seq<(Seq<u8>, Seq<char>)>,
    id: Seq<u8>,
    value: Seq<char>,
    b: Seq<(Seq<u8>, Seq<char>)>,
)
    ensures
        kept_info(a + b) == kept_info(a) + kept_info(b),
        trim_of(value).len() > 0 ==> kept_info(seq![(id, value)]) == seq![(id, trim_of(value))],
        trim_of(value).len() == 0 ==> kept_info(seq![(id, value)]).len() == 0,
    decreases b.len(),
{
    let one = seq![(id, value)];
    assert(one.drop_last() =~= Seq::<(Seq<u8>, Seq<char>)>::empty());
    assert(one.last() == (id, value));
    assert(kept_info(one.drop_last()) == one.drop_last());
    if trim_of(value).len() > 0 {
        assert(kept_info(one) =~= seq![(id, trim_of(value))]);
    }
    if b.len() > 0 {
        only_blank_entries_are_dropped(a, id, value, b.drop_last());
        assert((a + b).drop_last() =~= a + b.drop_last());
        assert((a + b).last() == b.last());
        assert(kept_info(a + b) =~= kept_info(a) + kept_info(b));
    } else {
        assert(a + b =~= a);
        assert(kept_info(a) + kept_info(b) =~= kept_info(a));
    }
}

proof fn lemma_namesakes(children: Seq<Node>, name: Seq<char>, i: int, n: int)
    requires
        0 <= i <= n <= children.len(),
    ensures
        namesakes(children, name, i) <= namesakes(children, name, n),
        i < n && children[i].name == name ==> namesakes(children, name, i) < namesakes(
            children,
            name,
            n,
        ),
    decreases n - i,
{
    if i < n {
        lemma_namesakes(children, name, i, n - 1);
    }
}

/// A field that has its name alone is shown under it; fields of one name are
/// counted from one in their order, so that no two are shown alike.
pub proof fn fields_of_one_name_are_counted(children: Seq<Node>, i: int, j: int)
    requires
        0 <= i < j < children.len(),
        children[i].name == children[j].name,
    ensures
        numbered_of(children, i) != numbered_of(children, j),
        (forall|k: int| 0 <= k < i ==> (#[trigger] children[k]).name != children[i].name)
            ==> numbered_of(children, i) == children[i].name + seq![' ', '1'],
{
    let name = children[i].name;
    let n = children.len() as int;
    lemma_namesakes(children, name, i, j);
    lemma_namesakes(children, name, j, n);
    let (a, b) = (namesakes(children, name, i) + 1, namesakes(children, name, j) + 1);
    digits_read_as_their_number(a);
    digits_read_as_their_number(b);
    let (x, y) = (name + seq![' '] + digits_of(a), name + seq![' '] + digits_of(b));
    let k = name.len() + 1;
    assert(x.skip(k as int) =~= digits_of(a));
    assert(y.skip(k as int) =~= digits_of(b));
    if forall|k: int| 0 <= k < i ==> (#[trigger] children[k]).name != children[i].name {
        lemma_no_namesakes(children, name, i);
        assert(name + seq![' '] + digits_of(1) =~= name + seq![' ', '1']) by {
            assert(digits_of(1) =~= seq!['1']);
        }
    }
}

proof fn lemma_no_namesakes(children: Seq<Node>, name: Seq<char>, i: int)
    requires
        0 <= i <= children.len(),
        forall|k: int| 0 <= k < i ==> (#[trigger] children[k]).name != name,
    ensures
        namesakes(children, name, i) == 0,
    decreases i,
{
    if i > 0 {
        lemma_no_namesakes(children, name, i - 1);
    }
}

/// A sync point is at the sample that its two halves make: the high one counts
/// as many times as the low one can.
pub proof fn a_sync_point_is_at_both_its_halves(n: Node, id: u32, low: u32, high: u32)
    requires
        number_of(n, "SYNC_POINT_LOW"@) == Some(low as nat),
        number_or_0(n, "SYNC_POINT_HIGH"@) == high,
        high as int * 0x1_0000_0000 + low <= usize::MAX,
    ensures
        sync_point_of(n, id) matches Some(m) && m.id == id && m.frame == high as int * 0x1_0000_0000
            + low && m.note.len() == 0,
        number_of(n, "SYNC_POINT_LOW"@) is None ==> sync_point_of(n, id) is None,
{
    let (h, l) = (high as u64, low as u64);
    assert((h << 32u64) | l == h * 0x1_0000_0000 + l) by (bit_vector)
        requires
            h <= 0xFFFF_FFFF,
            l <= 0xFFFF_FFFF,
    ;
}

/// What a name can be goes by what no name can hold. A file keeps its folder
/// when it gets another name, and one that another file has it does not get.
pub proof fn a_file_keeps_its_folder(path: Seq<char>, name: Seq<char>, windows: bool, other: bool)
    ensures
        can_be_a_name(name, windows) <==> name.len() > 0 && name[0] != '.' && forall|i: int|
            0 <= i < name.len() ==> !barred(#[trigger] name[i], windows),
        rename_target_of(path, name, windows) is Ok <==> can_be_a_name(trim_of(name), windows),
        rename_target_of(path, name, windows) matches Ok(to) ==> file_name_of(to) == trim_of(name)
            && to.take(last_of(path, '/') + 1) == path.take(last_of(path, '/') + 1),
        rename_of(path, name, windows, other) matches Ok(RenamingView::Move(to)) ==> !other && to
            != path,
        rename_of(path, name, windows, other) matches Ok(RenamingView::Same(to)) ==> to == path,
{
    assert forall|c: char| reserved_of(windows).contains(c) || control(c) <==> #[trigger] barred(
        c,
        windows,
    ) by {
        crate::panels::lemma_reserved(c, windows);
    }
    if can_be_a_name(trim_of(name), windows) {
        let t = trim_of(name);
        assert(!t.contains('/')) by {
            if t.contains('/') {
                let i = choose|i: int| 0 <= i < t.len() && t[i] == '/';
                assert(barred(t[i], windows));
            }
        }
        renaming_stays_in_the_folder(path, t);
        lemma_last_before(path, '/', path.len() as int);
        let to = rename_target_of(path, name, windows)->Ok_0;
        assert(t.contains(t[0]));
        assert(to.take(last_of(path, '/') + 1) =~= path.take(last_of(path, '/') + 1));
    }
}

/// A new file is written beside the one it is for, hidden, under a name of its
/// own.
pub proof fn a_new_file_is_written_beside(path: Seq<char>)
    ensures
        ({
            let temp = temp_path_of(path);
            let at = last_of(path, '/') + 1;
            &&& temp.take(at) == path.take(at)
            &&& temp.len() > path.len()
            &&& temp[at] == '.'
            &&& temp.subrange(at + 1, at + 1 + file_name_of(path).len()) == file_name_of(path)
        }),
{
    let at = last_of(path, '/') + 1;
    lemma_last_before(path, '/', path.len() as int);
    let name = file_name_of(path);
    let hidden = seq!['.'] + name + ".soundcheck-save"@;
    assert(hidden[0] == '.');
    let temp = temp_path_of(path);
    assert(temp == path.take(at) + hidden);
    assert(temp.take(at) =~= path.take(at));
    assert(temp.subrange(at + 1, at + 1 + name.len()) =~= name);
    assert(path.len() == at + name.len());
}

proof fn lemma_unmarked(a: Seq<char>, m: Seq<char>, b: Seq<char>)
    requires
        forall|i: int| 0 <= i < a.len() ==> speed_mark(#[trigger] a[i]),
        forall|i: int| 0 <= i < b.len() ==> speed_mark(#[trigger] b[i]),
        m.len() > 0,
        !speed_mark(m[0]),
        !speed_mark(m.last()),
    ensures
        unmarked_start(a + m + b) == m + b,
        unmarked_end(m + b) == m,
    decreases a.len() + b.len(),
{
    let s = a + m + b;
    if a.len() > 0 {
        let rest = a.skip(1);
        assert forall|i: int| 0 <= i < rest.len() implies speed_mark(#[trigger] rest[i]) by {
            assert(rest[i] == a[i + 1]);
        }
        lemma_unmarked(rest, m, b);
        assert(s[0] == a[0]);
        assert(s.skip(1) =~= rest + m + b);
    } else {
        assert(s =~= m + b);
        assert(s[0] == m[0]);
        if b.len() > 0 {
            let rest = b.drop_last();
            assert forall|i: int| 0 <= i < rest.len() implies speed_mark(#[trigger] rest[i]) by {
                assert(rest[i] == b[i]);
            }
            lemma_unmarked(a, m, rest);
            assert((m + b).last() == b.last());
            assert((m + b).drop_last() =~= m + rest);
            assert(speed_mark(b[b.len() - 1]));
        } else {
            assert(m + b =~= m);
        }
    }
}

/// A speed is typed as a number or as a fraction, with a sign before or behind
/// it that marks it as a speed, or without.
pub proof fn a_speed_is_typed_as_a_fraction(
    before: Seq<char>,
    a: Seq<char>,
    b: Seq<char>,
    behind: Seq<char>,
)
    requires
        forall|i: int| 0 <= i < before.len() ==> speed_mark(#[trigger] before[i]),
        forall|i: int| 0 <= i < behind.len() ==> speed_mark(#[trigger] behind[i]),
        tidy(a),
        tidy(b),
        a.len() > 0,
        b.len() > 0,
        !a.contains('/'),
        !speed_mark(a[0]),
        !speed_mark(a.last()),
        !speed_mark(b.last()),
    ensures
        speed_parts_of(before + a + behind) == (a, None::<Seq<char>>),
        speed_parts_of(before + (a + seq!['/'] + b) + behind) == (a, Some(b)),
{
    let m = a + seq!['/'] + b;
    lemma_unmarked(before, a, behind);
    lemma_unmarked(before, m, behind);
    assert(tidy(m)) by {
        assert(m[0] == a[0]);
        assert(m.last() == b.last());
    }
    lemma_marked_is_tidy(before, a, behind);
    lemma_marked_is_tidy(before, m, behind);
    lemma_stays_trimmed(before + a + behind);
    lemma_stays_trimmed(before + m + behind);
    lemma_stays_trimmed(a);
    lemma_stays_trimmed(b);
    lemma_stays_trimmed(m);
    lemma_first_index(a, is_char('/'), 0);
    let none = first_index(a, is_char('/'), 0);
    if none < a.len() {
        assert(a.contains(a[none]));
    }
    lemma_first_index(m, is_char('/'), 0);
    let at = first_index(m, is_char('/'), 0);
    let k = a.len() as int;
    assert(m[k] == '/');
    if at < k {
        assert(m[at] == a[at]);
        assert(a.contains(a[at]));
    } else if at > k {
        assert(!is_char('/')(m[k]));
    }
    assert(m.take(k) =~= a);
    assert(m.skip(k + 1) =~= b);
}

proof fn lemma_marked_is_tidy(a: Seq<char>, m: Seq<char>, b: Seq<char>)
    requires
        forall|i: int| 0 <= i < a.len() ==> speed_mark(#[trigger] a[i]),
        forall|i: int| 0 <= i < b.len() ==> speed_mark(#[trigger] b[i]),
        m.len() > 0,
        tidy(m),
    ensures
        tidy(a + m + b),
{
    let s = a + m + b;
    if a.len() > 0 {
        assert(speed_mark(a[0]));
        assert(s[0] == a[0]);
    } else {
        assert(s[0] == m[0]);
    }
    if b.len() > 0 {
        assert(speed_mark(b[b.len() - 1]));
        assert(s.last() == b.last());
    } else {
        assert(s.last() == m.last());
    }
}

proof fn lemma_left_alone(x: Seq<char>, y: Seq<char>, find: Seq<char>, with: Seq<char>)
    requires
        find.len() > 0,
        forall|at: int| 0 <= at < x.len() ==> !#[trigger] stands_at(x + y, find, at),
    ensures
        replaced_of(x + y, find, with) == x + replaced_of(y, find, with),
    decreases x.len(),
{
    let s = x + y;
    let n = find.len() as int;
    if x.len() == 0 {
        assert(s =~= y);
        assert(x + replaced_of(y, find, with) =~= replaced_of(y, find, with));
    } else if s.len() < n {
        assert(x + replaced_of(y, find, with) =~= s);
    } else {
        let rest = x.skip(1);
        assert(s.skip(1) =~= rest + y);
        assert(!stands_at(s, find, 0));
        assert(s.take(n) =~= s.subrange(0, n));
        assert forall|at: int| 0 <= at < rest.len() implies !#[trigger] stands_at(
            rest + y,
            find,
            at,
        ) by {
            if stands_at(rest + y, find, at) {
                assert(s.subrange(at + 1, at + 1 + n) =~= (rest + y).subrange(at, at + n));
                assert(stands_at(s, find, at + 1));
            }
        }
        lemma_left_alone(rest, y, find, with);
        assert(s[0] == x[0]);
        assert(x =~= seq![x[0]] + rest);
        assert(replaced_of(s, find, with) =~= x + replaced_of(y, find, with));
    }
}

proof fn lemma_not_there(s: Seq<char>, find: Seq<char>, at: int)
    requires
        find.len() > 0,
        0 <= at < s.len(),
        s[at] != find[0] || (find.len() > 1 && (at + 1 >= s.len() || s[at + 1] != find[1])),
    ensures
        !stands_at(s, find, at),
{
    if stands_at(s, find, at) {
        let part = s.subrange(at, at + find.len());
        assert(part[0] == s[at]);
        if find.len() > 1 {
            assert(part[1] == s[at + 1]);
        }
    }
}

/// Lines of a text end in one way while it is edited, whichever of the three
/// ways they were written in, and in the way that recorders write when it is
/// written back.
pub proof fn lines_end_in_one_way(a: Seq<char>, b: Seq<char>)
    requires
        !a.contains('\r'),
        !a.contains('\n'),
    ensures
        lf_of(a) == a,
        lf_of(a + seq!['\n'] + b) == a + seq!['\n'] + lf_of(b),
        lf_of(a + seq!['\r', '\n'] + b) == a + seq!['\n'] + lf_of(b),
        b.len() == 0 || b[0] != '\n' ==> lf_of(a + seq!['\r'] + b) == a + seq!['\n'] + lf_of(b),
        crlf_of(a) == a,
        crlf_of(a + seq!['\n'] + b) == a + seq!['\r', '\n'] + crlf_of(b),
{
    let (cr, lf, both) = (seq!['\r'], seq!['\n'], seq!['\r', '\n']);
    let none = Seq::<char>::empty();
    let r1b = replaced_of(b, both, lf);
    lemma_lines_apart(a, none, both, lf);
    lemma_lines_apart(a, none, cr, lf);
    lemma_lines_apart(a, none, lf, both);
    assert(a + none =~= a);
    assert(replaced_of(none, both, lf) =~= none);
    assert(replaced_of(none, cr, lf) =~= none);
    assert(replaced_of(none, lf, both) =~= none);
    // A line feed stays.
    let s = a + lf + b;
    let al = a + lf;
    assert forall|at: int| 0 <= at < al.len() implies !#[trigger] stands_at(al + b, both, at) by {
        lemma_plain_there(a, lf, b, at);
        lemma_not_there(al + b, both, at);
    }
    lemma_left_alone(al, b, both, lf);
    assert forall|at: int| 0 <= at < al.len() implies !#[trigger] stands_at(al + r1b, cr, at) by {
        lemma_plain_there(a, lf, r1b, at);
        lemma_not_there(al + r1b, cr, at);
    }
    lemma_left_alone(al, r1b, cr, lf);
    assert(s =~= al + b);
    // Both signs become one.
    let t = a + both + b;
    assert forall|at: int| 0 <= at < a.len() implies !#[trigger] stands_at(t, both, at) by {
        assert(t[at] == a[at]);
        assert(a.contains(a[at]));
        lemma_not_there(t, both, at);
    }
    the_first_find_is_replaced(a, both, b, lf);
    assert(a + lf + r1b =~= al + r1b);
    // A carriage return alone becomes one too.
    if b.len() == 0 || b[0] != '\n' {
        let u = a + cr + b;
        let ac = a + cr;
        assert forall|at: int| 0 <= at < ac.len() implies !#[trigger] stands_at(ac + b, both, at) by {
            lemma_plain_there(a, cr, b, at);
            if at == a.len() && b.len() > 0 {
                assert((ac + b)[at + 1] == b[0]);
            }
            lemma_not_there(ac + b, both, at);
        }
        lemma_left_alone(ac, b, both, lf);
        assert(u =~= ac + b);
        assert forall|at: int| 0 <= at < a.len() implies !#[trigger] stands_at(
            a + cr + r1b,
            cr,
            at,
        ) by {
            assert((a + cr + r1b)[at] == a[at]);
            assert(a.contains(a[at]));
            lemma_not_there(a + cr + r1b, cr, at);
        }
        the_first_find_is_replaced(a, cr, r1b, lf);
    }
    // And back.
    let lb = lf_of(b);
    let v = a + lf + lb;
    assert forall|at: int| 0 <= at < a.len() implies !#[trigger] stands_at(v, lf, at) by {
        assert(v[at] == a[at]);
        assert(a.contains(a[at]));
        lemma_not_there(v, lf, at);
    }
    the_first_find_is_replaced(a, lf, lb, both);
}

proof fn lemma_plain_there(a: Seq<char>, end: Seq<char>, b: Seq<char>, at: int)
    requires
        !a.contains('\r'),
        !a.contains('\n'),
        end.len() == 1,
        0 <= at <= a.len(),
    ensures
        at < a.len() ==> (a + end + b)[at] != '\r' && (a + end + b)[at] != '\n',
        at == a.len() ==> (a + end + b)[at] == end[0],
{
    if at < a.len() {
        assert((a + end + b)[at] == a[at]);
        assert(a.contains(a[at]));
    }
}

proof fn lemma_lines_apart(a: Seq<char>, b: Seq<char>, find: Seq<char>, with: Seq<char>)
    requires
        !a.contains('\r'),
        !a.contains('\n'),
        find.len() > 0,
        find[0] == '\r' || find[0] == '\n',
    ensures
        replaced_of(a + b, find, with) == a + replaced_of(b, find, with),
{
    assert forall|at: int| 0 <= at < a.len() implies !#[trigger] stands_at(a + b, find, at) by {
        assert((a + b)[at] == a[at]);
        assert(a.contains(a[at]));
        lemma_not_there(a + b, find, at);
    }
    lemma_left_alone(a, b, find, with);
}

/// What is shown for editing is what the file says: its Broadcast WAV texts in
/// the order of their fields, its start where it has one, and its marks, or
/// the sync points of its document where it keeps none.
pub proof fn what_the_file_says_is_shown(w: WavView)
    ensures
        ({
            let e = edits_of(w);
            &&& e.bext.len() == 5
            &&& w.bext matches Some(b) ==> {
                &&& e.bext[0] == lf_of(b.description) && e.bext[1] == lf_of(b.originator)
                &&& e.bext[2] == lf_of(b.originator_reference)
                &&& e.bext[3] == lf_of(b.origination_date) && e.bext[4] == lf_of(b.origination_time)
                &&& e.coding_history == lf_of(b.coding_history)
                &&& e.start.len() == 0 <==> b.time_reference == 0
            }
            &&& w.bext is None ==> e.start.len() == 0 && e.coding_history.len() == 0 && forall|
                i: int,
            |
                0 <= i < 5 ==> (#[trigger] e.bext[i]).len() == 0
            &&& w.cues matches Some(m) ==> e.markers == m
        }),
{
}

proof fn lemma_fields_refused(new: Seq<Seq<char>>, old: Seq<Seq<char>>, k: int, raw: Seq<u8>)
    requires
        0 <= k <= 5,
    ensures
        fields_written(new, old, k, raw) is Err <==> exists|i: int|
            0 <= i < k && too_long_for(#[trigger] new[i], old[i], i),
    decreases k,
{
    if k > 0 {
        lemma_fields_refused(new, old, k - 1, raw);
        lemma_rooms();
        assert(too_long_for(new[k - 1], old[k - 1], k - 1) <==> new[k - 1] != old[k - 1]
            && encode_utf8(crlf_of(new[k - 1])).len() > BEXT_FIELDS@[k - 1].2
            - BEXT_FIELDS@[k - 1].1);
    }
}

proof fn lemma_rooms()
    ensures
        forall|i: int| 0 <= i < 5 ==> room_of(i) == (#[trigger] BEXT_FIELDS@[i]).2 - BEXT_FIELDS@[i].1,
{
    let f = BEXT_FIELDS@;
    assert(f[0].1 == 0 && f[0].2 == 256 && f[1].1 == 256 && f[1].2 == 288);
    assert(f[2].1 == 288 && f[2].2 == 320 && f[3].1 == 320 && f[3].2 == 330);
    assert(f[4].1 == 330 && f[4].2 == 338);
}

/// How many bytes a Broadcast WAV text has room for.
pub open spec fn room_of(i: int) -> int {
    if i == 0 {
        256
    } else if i == 1 || i == 2 {
        32
    } else if i == 3 {
        10
    } else {
        8
    }
}

/// Whether a text was changed to one that its field has no room for.
pub open spec fn too_long_for(new: Seq<char>, old: Seq<char>, i: int) -> bool {
    new != old && encode_utf8(crlf_of(new)).len() > room_of(i)
}

/// Edits are refused where a Broadcast WAV text that was changed has no room in
/// its field, or where a start that was changed is no time of day, and not
/// otherwise. An empty start is none at all.
pub proof fn only_what_does_not_fit_is_refused(
    e: EditsView,
    saved: EditsView,
    samples: Option<u64>,
)
    requires
        e.bext.len() == 5,
        saved.bext.len() == 5,
    ensures
        changes_of(e, saved, samples) is Err <==> (exists|i: int|
            0 <= i < 5 && too_long_for(#[trigger] e.bext[i], saved.bext[i], i)) || (e.start
            != saved.start && trim_of(e.start).len() > 0 && (time_parts_of(e.start) is None || samples
            is None)),
{
    lemma_fields_refused(e.bext, saved.bext, 5, bext_base(e.held.bext));
    if e.bext == saved.bext {
        assert forall|i: int| 0 <= i < 5 implies !too_long_for(
            #[trigger] e.bext[i],
            saved.bext[i],
            i,
        ) by {}
    }
}

proof fn lemma_known_first(info: Seq<(Seq<u8>, Seq<char>)>, k: int)
    requires
        0 <= k <= INFO_FIELDS@.len(),
    ensures
        known_info(info, k).0.len() == k,
        forall|i: int| 0 <= i < k ==> (#[trigger] known_info(info, k).0[i]).0 == known_id(i),
        forall|i: int|
            0 <= i < k ==> (#[trigger] known_info(info, k).0[i]).1.len() == 0 || info.contains(
                known_info(info, k).0[i],
            ),
        forall|i: int|
            0 <= i < known_info(info, k).1.len() ==> info.contains(
                #[trigger] known_info(info, k).1[i],
            ),
    decreases k,
{
    if k > 0 {
        lemma_known_first(info, k - 1);
        let (done, left) = known_info(info, k - 1);
        let at = first_index(left, has_id(known_id(k - 1)), 0);
        lemma_first_index(left, has_id(known_id(k - 1)), 0);
        let (next, rest) = known_info(info, k);
        assert forall|i: int| 0 <= i < k implies (#[trigger] next[i]).0 == known_id(i) && (
        next[i].1.len() == 0 || info.contains(next[i])) by {
            if i < k - 1 {
                assert(next[i] == done[i]);
            } else if at < left.len() {
                assert(has_id(known_id(k - 1))(left[at]));
                assert(next[i] == left[at]);
            }
        }
        assert forall|i: int| 0 <= i < rest.len() implies info.contains(#[trigger] rest[i]) by {
            if at < left.len() {
                if i < at {
                    assert(rest[i] == left[i]);
                } else {
                    assert(rest[i] == left[i + 1]);
                }
            } else {
                assert(rest[i] == left[i]);
            }
        }
    } else {
        assert forall|i: int| 0 <= i < info.len() implies info.contains(#[trigger] info[i]) by {}
    }
}

/// The entries that editors know are always shown, in their own order and each
/// with what the file says, and behind them the others.
pub proof fn known_entries_are_shown_first(info: Seq<(Seq<u8>, Seq<char>)>, i: int)
    requires
        0 <= i < shown_info(info).len(),
    ensures
        shown_info(info).len() >= INFO_FIELDS@.len(),
        i < INFO_FIELDS@.len() ==> shown_info(info)[i].0 == INFO_FIELDS@[i].0@,
        shown_info(info)[i].1.len() > 0 || i >= INFO_FIELDS@.len() ==> info.contains(
            shown_info(info)[i],
        ),
{
    let n = INFO_FIELDS@.len() as int;
    lemma_known_first(info, n);
    let (done, left) = known_info(info, n);
    if i < n {
        assert(shown_info(info)[i] == done[i]);
    } else {
        assert(shown_info(info)[i] == left[i - n]);
    }
}

/// Sync points are counted from one as they stand in the document.
pub proof fn sync_points_are_counted(children: Seq<Node>, k: int, i: int)
    requires
        0 <= k <= children.len() <= u32::MAX,
        0 <= i < sync_points_upto(children, k).len(),
    ensures
        sync_points_upto(children, k).len() <= k,
        sync_points_upto(children, k)[i].id == i + 1,
    decreases k,
{
    if k > 0 {
        let done = sync_points_upto(children, k - 1);
        lemma_no_more_points(children, k - 1);
        if i < done.len() {
            sync_points_are_counted(children, k - 1, i);
        }
    }
}

proof fn lemma_no_more_points(children: Seq<Node>, k: int)
    requires
        0 <= k <= children.len(),
    ensures
        sync_points_upto(children, k).len() <= k,
    decreases k,
{
    if k > 0 {
        lemma_no_more_points(children, k - 1);
    }
}

/// A field that holds no others is shown under its name with its text, and one
/// inside another under both their names.
pub proof fn fields_are_called_by_their_way(outer: Node, inner: Node, label: Seq<char>)
    requires
        inner.children.len() == 0,
        outer.children == seq![inner],
    ensures
        leaves_of(inner, label).len() == 1,
        leaves_of(inner, label)[0].label == label,
        leaves_of(inner, label)[0].value == trim_of(inner.text),
        leaves_of(outer, label).len() == 1,
        leaves_of(outer, label)[0].label == label + " / "@ + inner.name,
        leaves_of(outer, label)[0].value == trim_of(inner.text),
{
    reveal_strlit(" / ");
    assert(" / "@ =~= seq![' ', '/', ' ']);
    reveal_with_fuel(leaves_upto, 2);
    reveal_with_fuel(leaves_of, 2);
    reveal_with_fuel(namesakes, 2);
    let way = label + seq![' ', '/', ' '] + inner.name;
    assert(numbered_of(outer.children, 0) == inner.name);
    let all = leaves_upto(outer.children, Some(label), 1);
    assert(all =~= leaves_of(inner, way));
}

} // verus!
