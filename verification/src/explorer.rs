//! The folder tree: which files it lists, in which order, and which folders
//! are open.

use crate::order::{insert_by, sort_by};
use crate::path::{extension, extension_of, is_under, parent, parent_of, under};
use crate::text::{chars, digit, is_digit, lower, lowered, same, string};
use crate::wav::text_view;
use std::cmp::Ordering;
use vstd::prelude::*;

verus! {

/// How many digits `s` starts with.
pub open spec fn digit_run(s: Seq<char>) -> nat
    decreases s.len(),
{
    if s.len() > 0 && digit(s[0]) {
        1 + digit_run(s.skip(1))
    } else {
        0
    }
}

/// The number that a run of digits stands for.
pub open spec fn value_of(s: Seq<char>) -> nat
    decreases s.len(),
{
    if s.len() == 0 {
        0
    } else {
        10 * value_of(s.drop_last()) + digit_value(s.last())
    }
}

/// The number that a digit stands for.
pub open spec fn digit_value(c: char) -> nat {
    if digit(c) {
        (c as int - '0' as int) as nat
    } else {
        0
    }
}

/// What a name starts with, as it counts in the order of names: a character
/// by its place in Unicode, a run of digits by its value, in the place that
/// digits have.
pub open spec fn head_of(s: Seq<char>) -> (int, nat) {
    if digit(s[0]) {
        ('0' as int, value_of(s.take(digit_run(s) as int)))
    } else {
        (s[0] as int, 0)
    }
}

/// What follows the character or the run of digits at the start of `s`.
pub open spec fn rest_of(s: Seq<char>) -> Seq<char> {
    if digit(s[0]) {
        s.skip(digit_run(s) as int)
    } else {
        s.skip(1)
    }
}

/// Whether `a` goes before `b` the way file managers have it: a run of
/// digits counts by its value, so `take 9` comes before `take 10`.
pub open spec fn sooner(a: Seq<char>, b: Seq<char>) -> bool
    decreases a.len(),
    via sooner_ends
{
    if b.len() == 0 {
        false
    } else if a.len() == 0 {
        true
    } else {
        let (x, y) = (head_of(a), head_of(b));
        if x == y {
            sooner(rest_of(a), rest_of(b))
        } else {
            x.0 < y.0 || (x.0 == y.0 && x.1 < y.1)
        }
    }
}

#[via_fn]
proof fn sooner_ends(a: Seq<char>, b: Seq<char>) {
    if a.len() > 0 {
        lemma_rest_shorter(a);
    }
}

proof fn lemma_rest_shorter(s: Seq<char>)
    requires
        s.len() > 0,
    ensures
        rest_of(s).len() < s.len(),
        digit(s[0]) ==> 0 < digit_run(s),
        digit_run(s) <= s.len(),
{
    lemma_digit_run(s);
}

pub proof fn lemma_digit_run(s: Seq<char>)
    ensures
        digit_run(s) <= s.len(),
        forall|i: int| 0 <= i < digit_run(s) ==> digit(#[trigger] s[i]),
        digit_run(s) < s.len() ==> !digit(s[digit_run(s) as int]),
    decreases s.len(),
{
    if s.len() > 0 && digit(s[0]) {
        lemma_digit_run(s.skip(1));
        assert forall|i: int| 0 <= i < digit_run(s) implies digit(#[trigger] s[i]) by {
            if i > 0 {
                assert(s[i] == s.skip(1)[i - 1]);
            }
        }
        if digit_run(s) < s.len() {
            assert(s[digit_run(s) as int] == s.skip(1)[digit_run(s) - 1]);
        }
    }
}

/// No name goes before itself.
pub proof fn no_name_goes_before_itself(a: Seq<char>)
    ensures
        !sooner(a, a),
    decreases a.len(),
{
    if a.len() > 0 {
        lemma_rest_shorter(a);
        no_name_goes_before_itself(rest_of(a));
    }
}

/// Of two names, at most one goes before the other.
pub proof fn at_most_one_name_goes_first(a: Seq<char>, b: Seq<char>)
    ensures
        !(sooner(a, b) && sooner(b, a)),
    decreases a.len(),
{
    if a.len() > 0 && b.len() > 0 && head_of(a) == head_of(b) {
        lemma_rest_shorter(a);
        at_most_one_name_goes_first(rest_of(a), rest_of(b));
    }
}

/// A name that is not after a second, which is not after a third, is not
/// after the third.
pub proof fn the_order_of_names_carries_over(a: Seq<char>, b: Seq<char>, c: Seq<char>)
    requires
        !sooner(b, a),
        !sooner(c, b),
    ensures
        !sooner(c, a),
    decreases a.len() + b.len() + c.len(),
{
    if a.len() > 0 && b.len() > 0 && c.len() > 0 {
        lemma_rest_shorter(a);
        lemma_rest_shorter(b);
        lemma_rest_shorter(c);
        if head_of(a) == head_of(b) && head_of(b) == head_of(c) {
            the_order_of_names_carries_over(rest_of(a), rest_of(b), rest_of(c));
        }
    }
}

/// Where the digits of `v` from `i` on end.
pub fn digits_end(v: &[char], i: usize) -> (r: usize)
    requires
        i <= v@.len(),
    ensures
        r == i + digit_run(v@.skip(i as int)),
        i <= r <= v@.len(),
{
    let mut j: usize = i;
    let ghost s = v@.skip(i as int);
    proof {
        lemma_digit_run(s);
        assert(s.skip(0) =~= s);
    }
    while j < v.len() && is_digit(v[j])
        invariant
            i <= j <= v@.len(),
            s == v@.skip(i as int),
            digit_run(s) == j - i + digit_run(s.skip(j - i)),
        decreases v@.len() - j,
    {
        proof {
            assert(s.skip(j - i)[0] == v@[j as int]);
            assert(s.skip(j - i).skip(1) =~= s.skip(j - i + 1));
        }
        j = j + 1;
    }
    proof {
        if j < v@.len() {
            assert(s.skip(j - i)[0] == v@[j as int]);
        }
    }
    j
}

/// -1 where the number in `a` from `i` to `to_a` is less than the one in `b`
/// from `j` to `to_b`, 1 where it is more, and 0 where it is the same.
fn weigh_digits(a: &[char], i: usize, to_a: usize, b: &[char], j: usize, to_b: usize) -> (r: i8)
    requires
        i <= to_a <= a@.len(),
        j <= to_b <= b@.len(),
        to_a - i <= to_b - j,
        forall|k: int| i <= k < to_a ==> digit(#[trigger] a@[k]),
        forall|k: int| j <= k < to_b ==> digit(#[trigger] b@[k]),
    ensures
        ({
            let x = value_of(a@.subrange(i as int, to_a as int));
            let y = value_of(b@.subrange(j as int, to_b as int));
            r == if x < y {
                -1int
            } else if x == y {
                0
            } else {
                1
            }
        }),
{
    let extra: usize = (to_b - j) - (to_a - i);
    let mut order: i8 = 0;
    let mut k: usize = 0;
    assert(b@.subrange(j as int, j as int) =~= Seq::<char>::empty());
    while k < extra
        invariant
            k <= extra <= to_b - j,
            j <= to_b <= b@.len(),
            forall|k: int| j <= k < to_b ==> digit(#[trigger] b@[k]),
            order == if value_of(b@.subrange(j as int, j + k)) > 0 {
                -1int
            } else {
                0
            },
        decreases extra - k,
    {
        proof {
            let s = b@.subrange(j as int, j + k + 1);
            assert(s.drop_last() =~= b@.subrange(j as int, j + k));
            assert(s.last() == b@[j + k]);
        }
        if b[j + k] != '0' {
            order = -1;
        }
        k = k + 1;
    }
    let n: usize = to_a - i;
    let mut m: usize = 0;
    assert(a@.subrange(i as int, i as int) =~= Seq::<char>::empty());
    while m < n
        invariant
            m <= n,
            n == to_a - i,
            i <= to_a <= a@.len(),
            j + extra + n == to_b,
            to_b <= b@.len(),
            forall|k: int| i <= k < to_a ==> digit(#[trigger] a@[k]),
            forall|k: int| j <= k < to_b ==> digit(#[trigger] b@[k]),
            ({
                let x = value_of(a@.subrange(i as int, i + m));
                let y = value_of(b@.subrange(j as int, j + extra + m));
                order == if x < y {
                    -1int
                } else if x == y {
                    0
                } else {
                    1
                }
            }),
        decreases n - m,
    {
        proof {
            let s = a@.subrange(i as int, i + m + 1);
            assert(s.drop_last() =~= a@.subrange(i as int, i + m));
            assert(s.last() == a@[i + m]);
            let t = b@.subrange(j as int, j + extra + m + 1);
            assert(t.drop_last() =~= b@.subrange(j as int, j + extra + m));
            assert(t.last() == b@[j + extra + m]);
            assert(digit(a@[i + m]) && digit(b@[j + extra + m]));
        }
        if order == 0 {
            let x = a[i + m];
            let y = b[j + extra + m];
            if x < y {
                order = -1;
            } else if y < x {
                order = 1;
            }
        }
        m = m + 1;
    }
    order
}

/// -1 where `a` goes before `b`, 1 where `b` goes before `a`, and 0 where
/// neither does.
fn weigh(a: &[char], b: &[char]) -> (r: i8)
    ensures
        r == if sooner(a@, b@) {
            -1int
        } else if sooner(b@, a@) {
            1
        } else {
            0
        },
{
    let mut i: usize = 0;
    let mut j: usize = 0;
    assert(a@.skip(0) =~= a@);
    assert(b@.skip(0) =~= b@);
    while i < a.len() && j < b.len()
        invariant
            i <= a@.len(),
            j <= b@.len(),
            sooner(a@, b@) == sooner(a@.skip(i as int), b@.skip(j as int)),
            sooner(b@, a@) == sooner(b@.skip(j as int), a@.skip(i as int)),
        decreases a@.len() - i,
    {
        let x = a[i];
        let y = b[j];
        let ghost s = a@.skip(i as int);
        let ghost t = b@.skip(j as int);
        proof {
            assert(s[0] == x);
            assert(t[0] == y);
            lemma_rest_shorter(s);
            lemma_rest_shorter(t);
            at_most_one_name_goes_first(s, t);
        }
        if is_digit(x) && is_digit(y) {
            let p: usize = digits_end(a, i);
            let q: usize = digits_end(b, j);
            proof {
                lemma_digit_run(s);
                lemma_digit_run(t);
                assert(a@.subrange(i as int, p as int) =~= s.take(digit_run(s) as int));
                assert(b@.subrange(j as int, q as int) =~= t.take(digit_run(t) as int));
                assert forall|k: int| i <= k < p implies digit(#[trigger] a@[k]) by {
                    assert(a@[k] == s[k - i]);
                }
                assert forall|k: int| j <= k < q implies digit(#[trigger] b@[k]) by {
                    assert(b@[k] == t[k - j]);
                }
            }
            let order: i8 = if p - i <= q - j {
                weigh_digits(a, i, p, b, j, q)
            } else {
                -weigh_digits(b, j, q, a, i, p)
            };
            if order != 0 {
                return order;
            }
            proof {
                assert(a@.skip(p as int) =~= rest_of(s));
                assert(b@.skip(q as int) =~= rest_of(t));
            }
            i = p;
            j = q;
        } else if x < y {
            return -1;
        } else if y < x {
            return 1;
        } else {
            proof {
                assert(a@.skip(i + 1) =~= rest_of(s));
                assert(b@.skip(j + 1) =~= rest_of(t));
            }
            i = i + 1;
            j = j + 1;
        }
    }
    if i < a.len() {
        1
    } else if j < b.len() {
        -1
    } else {
        0
    }
}

/// Compares names the way file managers do: a run of digits by its value,
/// so `take 9` comes before `take 10`.
pub open spec fn natural_of(a: Seq<char>, b: Seq<char>) -> Ordering {
    if sooner(a, b) {
        Ordering::Less
    } else if sooner(b, a) {
        Ordering::Greater
    } else {
        Ordering::Equal
    }
}

/// Compares names the way file managers do: a run of digits by its value,
/// so `take 9` comes before `take 10`.
pub fn natural(a: &str, b: &str) -> (r: Ordering)
    ensures
        r == natural_of(a@, b@),
{
    let x = chars(a);
    let y = chars(b);
    let order: i8 = weigh(x.as_slice(), y.as_slice());
    if order < 0 {
        Ordering::Less
    } else if order > 0 {
        Ordering::Greater
    } else {
        Ordering::Equal
    }
}

/// Whether `a` goes before `b` in the natural order of names.
pub fn goes_first(a: &str, b: &str) -> (r: bool)
    ensures
        r == sooner(a@, b@),
{
    let x = chars(a);
    let y = chars(b);
    weigh(x.as_slice(), y.as_slice()) < 0
}

/// The kinds of file that are listed, by extension.
pub open spec fn audio_extension(e: Seq<char>) -> bool {
    ||| e == "wav"@
    ||| e == "wave"@
    ||| e == "bwf"@
    ||| e == "rf64"@
    ||| e == "flac"@
    ||| e == "mp3"@
    ||| e == "m4a"@
    ||| e == "aac"@
    ||| e == "ogg"@
    ||| e == "oga"@
    ||| e == "aif"@
    ||| e == "aiff"@
    ||| e == "aifc"@
    ||| e == "caf"@
    ||| e == "mka"@
    ||| e == "webm"@
}

/// `c`, or its small letter where it is an ASCII capital.
pub open spec fn small(c: char) -> char {
    if 'A' <= c <= 'Z' {
        (c as u32 + 32) as char
    } else {
        c
    }
}

/// Whether a file's extension, whatever its case, is one of those listed.
pub open spec fn is_audio_path(p: Seq<char>) -> bool {
    match extension_of(p) {
        Some(e) => audio_extension(e.map_values(|c: char| small(c))),
        None => false,
    }
}

fn smalls(v: &[char]) -> (r: Vec<char>)
    ensures
        r@ == v@.map_values(|c: char| small(c)),
{
    let mut out: Vec<char> = Vec::new();
    let mut i: usize = 0;
    while i < v.len()
        invariant
            i <= v@.len(),
            out@ == v@.take(i as int).map_values(|c: char| small(c)),
        decreases v@.len() - i,
    {
        let c = v[i];
        if 'A' <= c && c <= 'Z' {
            out.push((c as u8 + 32) as char);
        } else {
            out.push(c);
        }
        i = i + 1;
        assert(out@ =~= v@.take(i as int).map_values(|c: char| small(c)));
    }
    assert(v@.take(i as int) =~= v@);
    out
}

/// Whether a file's extension, whatever its case, is one of those listed.
pub fn is_audio(p: &str) -> (r: bool)
    ensures
        r == is_audio_path(p@),
{
    match extension(p) {
        Some(e) => {
            let small_letters = smalls(e.as_slice());
            let s = string(small_letters.as_slice());
            let e = s.as_str();
            same(e, "wav") || same(e, "wave") || same(e, "bwf") || same(e, "rf64") || same(
                e,
                "flac",
            ) || same(e, "mp3") || same(e, "m4a") || same(e, "aac") || same(e, "ogg") || same(
                e,
                "oga",
            ) || same(e, "aif") || same(e, "aiff") || same(e, "aifc") || same(e, "caf") || same(
                e,
                "mka",
            ) || same(e, "webm")
        },
        None => false,
    }
}

/// A folder or a file that the tree lists.
#[derive(Debug, PartialEq)]
pub struct Entry {
    pub path: String,
    pub name: String,
    pub is_dir: bool,
}

#[verifier::ext_equal]
pub struct EntryView {
    pub path: Seq<char>,
    pub name: Seq<char>,
    pub is_dir: bool,
}

impl View for Entry {
    type V = EntryView;

    open spec fn view(&self) -> EntryView {
        EntryView { path: self.path@, name: self.name@, is_dir: self.is_dir }
    }
}

/// Entries by their views.
pub open spec fn entry_views(s: Seq<Entry>) -> Seq<EntryView> {
    s.map_values(|e: Entry| e@)
}

/// Whether `a` goes before `b` character by character.
pub open spec fn text_sooner(a: Seq<char>, b: Seq<char>) -> bool
    decreases a.len(),
{
    if b.len() == 0 {
        false
    } else if a.len() == 0 {
        true
    } else if a[0] != b[0] {
        a[0] < b[0]
    } else {
        text_sooner(a.skip(1), b.skip(1))
    }
}

fn text_goes_first(a: &str, b: &str) -> (r: bool)
    ensures
        r == text_sooner(a@, b@),
{
    let x = chars(a);
    let y = chars(b);
    let mut i: usize = 0;
    proof {
        assert(x@.skip(0) =~= x@);
        assert(y@.skip(0) =~= y@);
    }
    while i < x.len() && i < y.len()
        invariant
            x@ == a@,
            y@ == b@,
            i <= x@.len(),
            i <= y@.len(),
            text_sooner(x@, y@) == text_sooner(x@.skip(i as int), y@.skip(i as int)),
        decreases x@.len() - i,
    {
        if x[i] != y[i] {
            return x[i] < y[i];
        }
        proof {
            assert(x@.skip(i as int).skip(1) =~= x@.skip(i + 1));
            assert(y@.skip(i as int).skip(1) =~= y@.skip(i + 1));
        }
        i = i + 1;
    }
    i < y.len()
}

/// The order of a listing: folders first, then as file managers do, then by
/// the letters.
pub open spec fn entry_before(a: EntryView, b: EntryView) -> bool {
    if a.is_dir != b.is_dir {
        a.is_dir
    } else if sooner(lowered(a.name), lowered(b.name)) {
        true
    } else if sooner(lowered(b.name), lowered(a.name)) {
        false
    } else {
        text_sooner(a.name, b.name)
    }
}

pub open spec fn entry_order() -> spec_fn(EntryView, EntryView) -> bool {
    |a: EntryView, b: EntryView| entry_before(a, b)
}

/// Whether the tree shows it: dotfiles are hidden, and of files only audio
/// is listed.
pub open spec fn listed(e: EntryView) -> bool {
    !(e.name.len() > 0 && e.name[0] == '.') && (e.is_dir || is_audio_path(e.path))
}

/// The entries that the tree shows.
pub open spec fn all_listed(s: Seq<EntryView>) -> Seq<EntryView>
    decreases s.len(),
{
    if s.len() == 0 {
        s
    } else if listed(s.last()) {
        all_listed(s.drop_last()).push(s.last())
    } else {
        all_listed(s.drop_last())
    }
}

fn entry_goes_first(a: &Entry, b: &Entry) -> (r: bool)
    ensures
        r == entry_before(a@, b@),
{
    if a.is_dir != b.is_dir {
        return a.is_dir;
    }
    let x = lower(a.name.as_str());
    let y = lower(b.name.as_str());
    if goes_first(x.as_str(), y.as_str()) {
        return true;
    }
    if goes_first(y.as_str(), x.as_str()) {
        return false;
    }
    text_goes_first(a.name.as_str(), b.name.as_str())
}

fn place_entry(v: &mut Vec<Entry>, e: Entry)
    ensures
        entry_views(final(v)@) == insert_by(entry_views(old(v)@), e@, entry_order()),
{
    let ghost all = entry_views(v@);
    let ghost less = entry_order();
    let ghost x = e@;
    let mut at: usize = v.len();
    assert(all.take(at as int) =~= all);
    assert(all.skip(at as int) =~= Seq::<EntryView>::empty());
    while at > 0 && entry_goes_first(&e, &v[at - 1])
        invariant
            at <= v@.len(),
            all == entry_views(v@),
            x == e@,
            less == entry_order(),
            insert_by(all, x, less) == insert_by(all.take(at as int), x, less) + all.skip(at as int),
        decreases at,
    {
        at = at - 1;
        proof {
            let head = all.take(at + 1);
            assert(head.drop_last() =~= all.take(at as int));
            assert(head.last() == v@[at as int]@);
            assert(insert_by(all.take(at as int), x, less).push(head.last()) + all.skip(at + 1)
                =~= insert_by(all.take(at as int), x, less) + all.skip(at as int));
        }
    }
    proof {
        if at > 0 {
            assert(all.take(at as int).last() == v@[at - 1]@);
        }
    }
    v.insert(at, e);
    assert(entry_views(v@) =~= all.take(at as int).push(x) + all.skip(at as int));
}

/// Of what is in a folder, the folders and audio files: folders first, then
/// in file-manager order, dotfiles hidden.
pub fn list(found: Vec<Entry>) -> (r: Vec<Entry>)
    ensures
        entry_views(r@) == sort_by(all_listed(entry_views(found@)), entry_order()),
{
    let ghost all = entry_views(found@);
    let mut rest = found;
    let mut kept: Vec<Entry> = Vec::new();
    let mut i: usize = 0;
    let n: usize = rest.len();
    proof {
        assert(all.take(0) =~= Seq::<EntryView>::empty());
        assert(entry_views(kept@) =~= sort_by(all_listed(all.take(0)), entry_order()));
        assert(all.skip(0) =~= all);
    }
    while i < n
        invariant
            i <= n,
            n == all.len(),
            entry_views(rest@) == all.skip(i as int),
            entry_views(kept@) == sort_by(all_listed(all.take(i as int)), entry_order()),
        decreases n - i,
    {
        proof {
            assert(entry_views(rest@).len() == rest@.len());
            assert(entry_views(rest@)[0] == rest@[0]@);
            assert(all.take(i + 1).drop_last() =~= all.take(i as int));
            assert(all.take(i + 1).last() == all[i as int]);
        }
        let ghost before = rest@;
        let e = rest.remove(0);
        proof {
            assert(entry_views(rest@) =~= entry_views(before).skip(1));
            assert(all.skip(i as int).skip(1) =~= all.skip(i + 1));
        }
        let name = chars(e.name.as_str());
        let hidden = name.len() > 0 && name[0] == '.';
        if !hidden && (e.is_dir || is_audio(e.path.as_str())) {
            proof {
                let k = all_listed(all.take(i as int));
                assert(k.push(e@).drop_last() =~= k);
            }
            place_entry(&mut kept, e);
        }
        i = i + 1;
    }
    assert(all.take(n as int) =~= all);
    kept
}

/// Each entry that a listing shows was in the folder and is listed, and
/// nothing that is listed is left out.
pub proof fn a_listing_shows_what_is_listed(s: Seq<EntryView>, e: EntryView)
    ensures
        sort_by(all_listed(s), entry_order()).contains(e) <==> s.contains(e) && listed(e),
{
    crate::order::sorting_keeps_every_item(all_listed(s), entry_order());
    lemma_all_listed(s, e);
    let a = sort_by(all_listed(s), entry_order());
    let b = all_listed(s);
    if b.contains(e) {
        assert(b.to_multiset().count(e) > 0) by {
            broadcast use vstd::seq_lib::group_to_multiset_ensures;
        }
        assert(a.contains(e)) by {
            broadcast use vstd::seq_lib::group_to_multiset_ensures;
        }
    }
    if a.contains(e) {
        assert(a.to_multiset().count(e) > 0) by {
            broadcast use vstd::seq_lib::group_to_multiset_ensures;
        }
        assert(b.contains(e)) by {
            broadcast use vstd::seq_lib::group_to_multiset_ensures;
        }
    }
}

proof fn lemma_all_listed(s: Seq<EntryView>, e: EntryView)
    ensures
        all_listed(s).contains(e) <==> s.contains(e) && listed(e),
    decreases s.len(),
{
    if s.len() > 0 {
        let rest = s.drop_last();
        lemma_all_listed(rest, e);
        let kept = all_listed(rest);
        if s.contains(e) {
            let i = choose|i: int| 0 <= i < s.len() && s[i] == e;
            if i < rest.len() {
                assert(rest[i] == e);
            }
        }
        if rest.contains(e) {
            let i = choose|i: int| 0 <= i < rest.len() && rest[i] == e;
            assert(s[i] == e);
        }
        if kept.contains(e) {
            let i = choose|i: int| 0 <= i < kept.len() && kept[i] == e;
            assert(kept.push(s.last())[i] == e);
        }
        if listed(s.last()) {
            let more = kept.push(s.last());
            assert(more.last() == s.last());
            if more.contains(e) {
                let i = choose|i: int| 0 <= i < more.len() && more[i] == e;
                if i < kept.len() {
                    assert(kept[i] == e);
                }
            }
            assert(s.contains(s.last()));
            if e == s.last() {
                assert(more[kept.len() as int] == e);
            }
        }
    }
}

proof fn lemma_text_order(a: Seq<char>, b: Seq<char>, c: Seq<char>)
    ensures
        !text_sooner(a, a),
        !(text_sooner(a, b) && text_sooner(b, a)),
        !text_sooner(b, a) && !text_sooner(c, b) ==> !text_sooner(c, a),
    decreases a.len() + b.len() + c.len(),
{
    if a.len() > 0 && b.len() > 0 && c.len() > 0 {
        lemma_text_order(a.skip(1), b.skip(1), c.skip(1));
    } else if a.len() > 0 && b.len() > 0 {
        lemma_text_order(a.skip(1), b.skip(1), c);
    } else if a.len() > 0 {
        lemma_text_order(a.skip(1), b, c);
    }
}

proof fn lemma_entry_order(a: EntryView, b: EntryView, c: EntryView)
    ensures
        !entry_before(a, a),
        !(entry_before(a, b) && entry_before(b, a)),
        !entry_before(b, a) && !entry_before(c, b) ==> !entry_before(c, a),
{
    let (x, y, z) = (lowered(a.name), lowered(b.name), lowered(c.name));
    lemma_text_order(a.name, b.name, c.name);
    no_name_goes_before_itself(x);
    at_most_one_name_goes_first(x, y);
    at_most_one_name_goes_first(y, z);
    at_most_one_name_goes_first(x, z);
    if !sooner(y, x) && !sooner(z, y) {
        the_order_of_names_carries_over(x, y, z);
    }
    if !sooner(x, z) && !sooner(y, x) {
        the_order_of_names_carries_over(z, x, y);
    }
    if !sooner(z, y) && !sooner(x, z) {
        the_order_of_names_carries_over(y, z, x);
    }
}

/// Nothing in a listing goes before what stands ahead of it.
pub proof fn a_listing_is_in_order(s: Seq<EntryView>)
    ensures
        crate::order::in_order(sort_by(all_listed(s), entry_order()), entry_order()),
{
    let less = entry_order();
    assert forall|a: EntryView| !#[trigger] less(a, a) by {
        lemma_entry_order(a, a, a);
    }
    assert forall|a: EntryView, b: EntryView| #[trigger] less(a, b) implies !less(b, a) by {
        lemma_entry_order(a, b, b);
    }
    assert forall|a: EntryView, b: EntryView, c: EntryView|
        !#[trigger] less(b, a) && !#[trigger] less(c, b) implies !less(c, a) by {
        lemma_entry_order(a, b, c);
    }
    crate::order::what_is_sorted_is_in_order(all_listed(s), less);
}

/// The folder tree. Each folder is read apart from it; it says which are
/// still unread, and is told what was in them.
pub struct Explorer {
    root: Option<String>,
    /// Folders read so far; `None` while a read is under way.
    listings: Vec<(String, Option<Vec<Entry>>)>,
    open: Vec<String>,
    selected: Option<String>,
    /// Scroll the selected file into view once its folder has been read.
    reveal: bool,
}

#[verifier::ext_equal]
pub struct ExplorerView {
    pub root: Option<Seq<char>>,
    pub listings: Map<Seq<char>, Option<Seq<EntryView>>>,
    pub open: Set<Seq<char>>,
    pub selected: Option<Seq<char>>,
    pub reveal: bool,
}

pub open spec fn listing_view(l: Option<Vec<Entry>>) -> Option<Seq<EntryView>> {
    match l {
        Some(l) => Some(entry_views(l@)),
        None => None,
    }
}

/// Where the folder is among the listings.
spec fn is_at(s: Seq<(String, Option<Vec<Entry>>)>, dir: Seq<char>, i: int) -> bool {
    0 <= i < s.len() && s[i].0@ == dir
}

spec fn place_of(s: Seq<(String, Option<Vec<Entry>>)>, dir: Seq<char>) -> int {
    choose|i: int| is_at(s, dir, i)
}

spec fn listings_view(s: Seq<(String, Option<Vec<Entry>>)>) -> Map<
    Seq<char>,
    Option<Seq<EntryView>>,
> {
    Map::new(
        |dir: Seq<char>| exists|i: int| is_at(s, dir, i),
        |dir: Seq<char>| listing_view(s[place_of(s, dir)].1),
    )
}

spec fn texts_set(s: Seq<String>) -> Set<Seq<char>> {
    Set::new(|t: Seq<char>| exists|i: int| 0 <= i < s.len() && (#[trigger] s[i])@ == t)
}

/// No folder is listed twice.
spec fn distinct(s: Seq<(String, Option<Vec<Entry>>)>) -> bool {
    forall|i: int, j: int|
        0 <= i < j < s.len() ==> (#[trigger] s[i]).0@ != (#[trigger] s[j]).0@
}

/// Every entry's path is longer than its folder's.
pub open spec fn deeper(dir: Seq<char>, entries: Seq<EntryView>) -> bool {
    forall|i: int| 0 <= i < entries.len() ==> (#[trigger] entries[i]).path.len() > dir.len()
}

spec fn all_deeper(s: Seq<(String, Option<Vec<Entry>>)>) -> bool {
    forall|i: int|
        0 <= i < s.len() ==> ((#[trigger] s[i]).1 matches Some(e) ==> deeper(
            s[i].0@,
            entry_views(e@),
        ))
}

impl View for Explorer {
    type V = ExplorerView;

    closed spec fn view(&self) -> ExplorerView {
        ExplorerView {
            root: text_view(self.root),
            listings: listings_view(self.listings@),
            open: texts_set(self.open@),
            selected: text_view(self.selected),
            reveal: self.reveal,
        }
    }
}

proof fn lemma_listing(s: Seq<(String, Option<Vec<Entry>>)>, i: int)
    requires
        distinct(s),
        0 <= i < s.len(),
    ensures
        listings_view(s).dom().contains(s[i].0@),
        listings_view(s)[s[i].0@] == listing_view(s[i].1),
{
    assert(is_at(s, s[i].0@, i));
    let j = place_of(s, s[i].0@);
    assert(is_at(s, s[i].0@, j));
    if j < i {
        assert(s[j].0@ != s[i].0@);
    } else if i < j {
        assert(s[i].0@ != s[j].0@);
    }
}

/// The listings whose folders `keep` keeps.
pub open spec fn kept_listings(
    m: Map<Seq<char>, Option<Seq<EntryView>>>,
    keep: spec_fn(Seq<char>) -> bool,
) -> Map<Seq<char>, Option<Seq<EntryView>>> {
    Map::new(|dir: Seq<char>| m.dom().contains(dir) && keep(dir), |dir: Seq<char>| m[dir])
}

pub open spec fn under_it(dir: Seq<char>) -> spec_fn(Seq<char>) -> bool {
    |p: Seq<char>| is_under(p, dir)
}

pub open spec fn not_under_it(dir: Seq<char>) -> spec_fn(Seq<char>) -> bool {
    |p: Seq<char>| !is_under(p, dir)
}

impl ExplorerView {
    pub open spec fn empty() -> ExplorerView {
        ExplorerView {
            root: None,
            listings: Map::empty(),
            open: Set::empty(),
            selected: None,
            reveal: false,
        }
    }

    /// The tree rooted at `dir`, with what was read outside it forgotten.
    pub open spec fn rooted(self, dir: Seq<char>) -> ExplorerView {
        if self.root == Some(dir) {
            self
        } else {
            ExplorerView {
                root: Some(dir),
                listings: kept_listings(self.listings, under_it(dir)),
                ..self
            }
        }
    }

    /// The tree rooted at `file`'s folder with `file` selected and in view.
    pub open spec fn revealing(self, file: Seq<char>, windows: bool) -> ExplorerView {
        let there = match parent_of(file, windows) {
            Some(dir) => self.rooted(dir),
            None => self,
        };
        ExplorerView { selected: Some(file), reveal: true, ..there }
    }

    /// The tree with `dir` opened, or closed if it was open, and to be read
    /// again.
    pub open spec fn toggled(self, dir: Seq<char>) -> ExplorerView {
        ExplorerView {
            open: if self.open.contains(dir) {
                self.open.remove(dir)
            } else {
                self.open.insert(dir)
            },
            listings: kept_listings(self.listings, not_under_it(dir)),
            ..self
        }
    }

    /// What was in a folder has been read. A folder closed meanwhile no
    /// longer wants it.
    pub open spec fn arrived(self, dir: Seq<char>, entries: Seq<EntryView>) -> ExplorerView {
        if self.listings.dom().contains(dir) && self.listings[dir] is None {
            ExplorerView { listings: self.listings.insert(dir, Some(entries)), ..self }
        } else {
            self
        }
    }

    /// Where the tree can be rooted one step up: at a folder, or on Windows
    /// at the list of drives.
    pub open spec fn above(self, windows: bool) -> Option<Option<Seq<char>>> {
        match self.root {
            None => None,
            Some(root) => match parent_of(root, windows) {
                Some(dir) => Some(Some(dir)),
                None => if windows {
                    Some(None)
                } else {
                    None
                },
            },
        }
    }
}

/// Of the listings, those that `inside` tells apart by standing under `dir`.
fn sift(
    s: &mut Vec<(String, Option<Vec<Entry>>)>,
    dir: &str,
    inside: bool,
)
    requires
        distinct(old(s)@),
        all_deeper(old(s)@),
    ensures
        distinct(final(s)@),
        all_deeper(final(s)@),
        listings_view(final(s)@) == kept_listings(
            listings_view(old(s)@),
            if inside {
                under_it(dir@)
            } else {
                not_under_it(dir@)
            },
        ),
{
    let ghost all = s@;
    let ghost keep = if inside {
        under_it(dir@)
    } else {
        not_under_it(dir@)
    };
    let mut i: usize = 0;
    while i < s.len()
        invariant
            i <= s@.len(),
            keep == if inside {
                under_it(dir@)
            } else {
                not_under_it(dir@)
            },
            distinct(s@),
            all_deeper(s@),
            distinct(all),
            forall|k: int| 0 <= k < s@.len() ==> all.contains(#[trigger] s@[k]),
            forall|k: int| 0 <= k < i ==> keep((#[trigger] s@[k]).0@),
            forall|k: int|
                0 <= k < all.len() && keep((#[trigger] all[k]).0@) ==> s@.contains(all[k]),
        decreases s@.len() - i,
    {
        let stays = under(s[i].0.as_str(), dir) == inside;
        if stays {
            i = i + 1;
        } else {
            let ghost before = s@;
            s.remove(i);
            proof {
                assert(s@ =~= before.remove(i as int));
                assert forall|k: int| 0 <= k < s@.len() implies all.contains(#[trigger] s@[k]) by {
                    if k < i {
                        assert(s@[k] == before[k]);
                    } else {
                        assert(s@[k] == before[k + 1]);
                    }
                }
                assert forall|j: int, k: int| 0 <= j < k < s@.len() implies (
                #[trigger] s@[j]).0@ != (#[trigger] s@[k]).0@ by {
                    let a = if j < i {
                        j
                    } else {
                        j + 1
                    };
                    let b = if k < i {
                        k
                    } else {
                        k + 1
                    };
                    assert(s@[j] == before[a] && s@[k] == before[b]);
                }
                assert forall|k: int| 0 <= k < s@.len() implies ((#[trigger] s@[k]).1 matches Some(
                    e,
                ) ==> deeper(s@[k].0@, entry_views(e@))) by {
                    let a = if k < i {
                        k
                    } else {
                        k + 1
                    };
                    assert(s@[k] == before[a]);
                }
                assert forall|k: int|
                    0 <= k < all.len() && keep((#[trigger] all[k]).0@) implies s@.contains(
                    all[k],
                ) by {
                    assert(before.contains(all[k]));
                    let m = choose|m: int| 0 <= m < before.len() && before[m] == all[k];
                    assert(m != i);
                    if m < i {
                        assert(s@[m] == all[k]);
                    } else {
                        assert(s@[m - 1] == all[k]);
                    }
                }
            }
        }
    }
    proof {
        let new = listings_view(s@);
        let want = kept_listings(listings_view(all), keep);
        assert forall|d: Seq<char>| #[trigger] new.dom().contains(d) implies want.dom().contains(
            d,
        ) && new[d] == want[d] by {
            let k = place_of(s@, d);
            assert(is_at(s@, d, k));
            assert(all.contains(s@[k]));
            let m = choose|m: int| 0 <= m < all.len() && all[m] == s@[k];
            assert(all[m].0@ == d);
            lemma_listing(all, m);
        }
        assert forall|d: Seq<char>| #[trigger] want.dom().contains(d) implies new.dom().contains(
            d,
        ) by {
            let m = place_of(all, d);
            assert(is_at(all, d, m));
            assert(s@.contains(all[m]));
            let k = choose|k: int| 0 <= k < s@.len() && s@[k] == all[m];
            assert(is_at(s@, d, k));
        }
        assert(new.dom() =~= want.dom());
        assert(new =~= want);
    }
}

impl Default for Explorer {
    fn default() -> (r: Self)
        ensures
            r@ == ExplorerView::empty(),
    {
        let r = Explorer {
            root: None,
            listings: Vec::new(),
            open: Vec::new(),
            selected: None,
            reveal: false,
        };
        assert(listings_view(r.listings@) =~= Map::<
            Seq<char>,
            Option<Seq<EntryView>>,
        >::empty());
        assert(texts_set(r.open@) =~= Set::<Seq<char>>::empty());
        r
    }
}

impl Explorer {
    #[verifier::type_invariant]
    spec fn well_kept(self) -> bool {
        distinct(self.listings@) && all_deeper(self.listings@)
    }

    /// The folder that the tree is rooted at; `None` is the list of drives
    /// on Windows, and nothing elsewhere.
    pub fn root(&self) -> (r: Option<&str>)
        ensures
            match (r, self@.root) {
                (Some(s), Some(root)) => s@ == root,
                (None, None) => true,
                _ => false,
            },
    {
        match &self.root {
            Some(root) => Some(root.as_str()),
            None => None,
        }
    }

    /// The file that is selected.
    pub fn selected(&self) -> (r: Option<&str>)
        ensures
            match (r, self@.selected) {
                (Some(s), Some(file)) => s@ == file,
                (None, None) => true,
                _ => false,
            },
    {
        match &self.selected {
            Some(file) => Some(file.as_str()),
            None => None,
        }
    }

    pub fn select(&mut self, file: &str)
        ensures
            final(self)@ == (ExplorerView { selected: Some(file@), ..old(self)@ }),
    {
        proof {
            use_type_invariant(&*self);
        }
        self.selected = Some(file.to_owned());
    }

    pub fn set_root(&mut self, dir: &str)
        ensures
            final(self)@ == old(self)@.rooted(dir@),
    {
        let there = match &self.root {
            Some(root) => same(root.as_str(), dir),
            None => false,
        };
        if !there {
            proof {
                use_type_invariant(&*self);
            }
            let mut listings: Vec<(String, Option<Vec<Entry>>)> = Vec::new();
            std::mem::swap(&mut listings, &mut self.listings);
            sift(&mut listings, dir, true);
            self.listings = listings;
            self.root = Some(dir.to_owned());
        }
    }

    /// Roots the tree at the list of drives.
    pub fn to_drives(&mut self)
        ensures
            final(self)@ == (ExplorerView { root: None, ..old(self)@ }),
    {
        proof {
            use_type_invariant(&*self);
        }
        self.root = None;
    }

    /// Roots the tree at `file`'s folder with `file` selected and in view.
    pub fn reveal_file(&mut self, file: &str, windows: bool)
        ensures
            final(self)@ == old(self)@.revealing(file@, windows),
    {
        match parent(file, windows) {
            Some(dir) => {
                self.set_root(dir.as_str());
            },
            None => {},
        }
        proof {
            use_type_invariant(&*self);
        }
        self.selected = Some(file.to_owned());
        self.reveal = true;
    }

    /// Where the tree can be rooted one step up.
    pub fn up(&self, windows: bool) -> (r: Option<Option<String>>)
        ensures
            match (r, self@.above(windows)) {
                (Some(a), Some(b)) => text_view(a) == b,
                (None, None) => true,
                _ => false,
            },
    {
        let root = match &self.root {
            Some(root) => root,
            None => {
                return None;
            },
        };
        match parent(root.as_str(), windows) {
            Some(dir) => Some(Some(dir)),
            None => {
                if windows {
                    Some(None)
                } else {
                    None
                }
            },
        }
    }

    /// Forgets everything read so far.
    pub fn reload(&mut self)
        ensures
            final(self)@ == (ExplorerView { listings: Map::empty(), ..old(self)@ }),
    {
        self.listings = Vec::new();
        assert(listings_view(self.listings@) =~= Map::<
            Seq<char>,
            Option<Seq<EntryView>>,
        >::empty());
    }

    fn find(&self, dir: &str) -> (r: Option<usize>)
        ensures
            match r {
                Some(i) => i < self.listings@.len() && self.listings@[i as int].0@ == dir@
                    && self@.listings.dom().contains(dir@) && self@.listings[dir@]
                    == listing_view(self.listings@[i as int].1),
                None => !self@.listings.dom().contains(dir@),
            },
    {
        proof {
            use_type_invariant(self);
        }
        let mut i: usize = 0;
        while i < self.listings.len()
            invariant
                i <= self.listings@.len(),
                distinct(self.listings@),
                forall|j: int| 0 <= j < i ==> !is_at(self.listings@, dir@, j),
            decreases self.listings@.len() - i,
        {
            if same(self.listings[i].0.as_str(), dir) {
                proof {
                    lemma_listing(self.listings@, i as int);
                }
                return Some(i);
            }
            i = i + 1;
        }
        None
    }

    /// A read of `dir` is under way.
    pub fn reading(&mut self, dir: &str)
        ensures
            final(self)@ == (ExplorerView {
                listings: old(self)@.listings.insert(dir@, None),
                ..old(self)@
            }),
    {
        self.put(dir, None);
    }

    fn put(&mut self, dir: &str, entries: Option<Vec<Entry>>)
        requires
            entries matches Some(e) ==> deeper(dir@, entry_views(e@)),
        ensures
            final(self)@ == (ExplorerView {
                listings: old(self)@.listings.insert(dir@, listing_view(entries)),
                ..old(self)@
            }),
    {
        proof {
            use_type_invariant(&*self);
        }
        let ghost before = self.listings@;
        let ghost l = listing_view(entries);
        let found = self.find(dir);
        let mut listings: Vec<(String, Option<Vec<Entry>>)> = Vec::new();
        std::mem::swap(&mut listings, &mut self.listings);
        match found {
            Some(i) => {
                let _ = listings.remove(i);
            },
            None => {},
        }
        let ghost rest = listings@;
        let item = (dir.to_owned(), entries);
        let ghost x = item;
        listings.push(item);
        proof {
            let new = listings@;
            let gone = |k: int| found matches Some(i) && k >= i;
            assert(new =~= rest.push(x));
            assert forall|k: int| 0 <= k < rest.len() implies #[trigger] rest[k] == before[if gone(
                k,
            ) {
                k + 1
            } else {
                k
            }] && rest[k].0@ != dir@ by {
                match found {
                    Some(i) => {
                        assert(rest =~= before.remove(i as int));
                        if k < i {
                            assert(before[k].0@ != before[i as int].0@);
                        } else {
                            assert(before[i as int].0@ != before[k + 1].0@);
                        }
                    },
                    None => {
                        assert(is_at(before, before[k].0@, k));
                    },
                }
            }
            assert forall|j: int, k: int| 0 <= j < k < new.len() implies (#[trigger] new[j]).0@ != (
            #[trigger] new[k]).0@ by {
                assert(new[j] == rest[j]);
                if k < rest.len() {
                    assert(new[k] == rest[k]);
                }
            }
            assert forall|k: int| 0 <= k < new.len() implies ((#[trigger] new[k]).1 matches Some(e)
                ==> deeper(new[k].0@, entry_views(e@))) by {
                if k < rest.len() {
                    assert(new[k] == rest[k]);
                }
            }
            let a = listings_view(new);
            let b = listings_view(before).insert(dir@, l);
            assert forall|d: Seq<char>| #[trigger] a.dom().contains(d) implies b.dom().contains(d)
                && a[d] == b[d] by {
                let k = place_of(new, d);
                assert(is_at(new, d, k));
                if k < rest.len() {
                    assert(new[k] == rest[k]);
                    lemma_listing(
                        before,
                        if gone(k) {
                            k + 1
                        } else {
                            k
                        },
                    );
                } else {
                    assert(d == dir@);
                }
            }
            assert forall|d: Seq<char>| #[trigger] b.dom().contains(d) implies a.dom().contains(
                d,
            ) by {
                if d == dir@ {
                    assert(is_at(new, d, rest.len() as int));
                } else {
                    let m = place_of(before, d);
                    assert(is_at(before, d, m));
                    match found {
                        Some(i) => {
                            if m < i {
                                assert(rest[m] == before[m]);
                                assert(is_at(new, d, m));
                            } else {
                                assert(m != i);
                                assert(rest[m - 1] == before[m]);
                                assert(is_at(new, d, m - 1));
                            }
                        },
                        None => {
                            assert(rest[m] == before[m]);
                            assert(is_at(new, d, m));
                        },
                    }
                }
            }
            assert(a.dom() =~= b.dom());
            assert(a =~= b);
        }
        self.listings = listings;
    }

    /// What was in a folder has been read.
    pub fn arrived(&mut self, dir: &str, entries: Vec<Entry>)
        requires
            deeper(dir@, entry_views(entries@)),
        ensures
            final(self)@ == old(self)@.arrived(dir@, entry_views(entries@)),
    {
        match self.find(dir) {
            Some(i) => {
                if self.listings[i].1.is_none() {
                    self.put(dir, Some(entries));
                }
            },
            None => {},
        }
    }

    fn find_open(&self, dir: &str) -> (r: Option<usize>)
        ensures
            match r {
                Some(i) => i < self.open@.len() && self.open@[i as int]@ == dir@
                    && self@.open.contains(dir@) && forall|j: int|
                    0 <= j < i ==> (#[trigger] self.open@[j])@ != dir@,
                None => !self@.open.contains(dir@),
            },
    {
        let mut i: usize = 0;
        while i < self.open.len()
            invariant
                i <= self.open@.len(),
                forall|j: int| 0 <= j < i ==> (#[trigger] self.open@[j])@ != dir@,
            decreases self.open@.len() - i,
        {
            if same(self.open[i].as_str(), dir) {
                return Some(i);
            }
            i = i + 1;
        }
        None
    }
}

proof fn lemma_texts_set(s: Seq<String>, t: String)
    ensures
        texts_set(s.push(t)) == texts_set(s).insert(t@),
{
    let more = s.push(t);
    assert forall|x: Seq<char>| #[trigger] texts_set(more).contains(x) implies texts_set(s).insert(
        t@,
    ).contains(x) by {
        let i = choose|i: int| 0 <= i < more.len() && (#[trigger] more[i])@ == x;
        if i < s.len() {
            assert(s[i] == more[i]);
        }
    }
    assert forall|x: Seq<char>| #[trigger] texts_set(s).insert(t@).contains(x) implies texts_set(
        more,
    ).contains(x) by {
        if x == t@ {
            assert(more[s.len() as int]@ == x);
        } else {
            let i = choose|i: int| 0 <= i < s.len() && (#[trigger] s[i])@ == x;
            assert(more[i] == s[i]);
        }
    }
    assert(texts_set(more) =~= texts_set(s).insert(t@));
}

/// Those of `s` that are not `t`.
fn without(s: &Vec<String>, t: &str) -> (r: Vec<String>)
    ensures
        texts_set(r@) == texts_set(s@).remove(t@),
{
    let mut out: Vec<String> = Vec::new();
    let mut i: usize = 0;
    proof {
        assert(s@.take(0) =~= Seq::<String>::empty());
        assert(texts_set(out@) =~= texts_set(s@.take(0)).remove(t@));
    }
    while i < s.len()
        invariant
            i <= s@.len(),
            texts_set(out@) == texts_set(s@.take(i as int)).remove(t@),
        decreases s@.len() - i,
    {
        let ghost before = out@;
        let ghost head = texts_set(s@.take(i as int));
        let ghost x = s@[i as int]@;
        proof {
            assert(s@.take(i + 1) =~= s@.take(i as int).push(s@[i as int]));
            lemma_texts_set(s@.take(i as int), s@[i as int]);
        }
        if same(s[i].as_str(), t) {
            assert(head.insert(x).remove(t@) =~= head.remove(t@));
        } else {
            let own = s[i].clone();
            let ghost kept = own;
            out.push(own);
            proof {
                lemma_texts_set(before, kept);
                assert(head.remove(t@).insert(x) =~= head.insert(x).remove(t@));
            }
        }
        i = i + 1;
    }
    assert(s@.take(i as int) =~= s@);
    out
}

impl Explorer {
    /// Opens `dir`, or closes it if it was open. It is read again on every
    /// open, so recordings copied in since the last look show up.
    pub fn toggle(&mut self, dir: &str)
        ensures
            final(self)@ == old(self)@.toggled(dir@),
    {
        proof {
            use_type_invariant(&*self);
        }
        let mut open = without(&self.open, dir);
        if self.find_open(dir).is_none() {
            let ghost others = open@;
            let t = dir.to_owned();
            let ghost added = t;
            open.push(t);
            proof {
                lemma_texts_set(others, added);
                assert(texts_set(self.open@).remove(dir@).insert(dir@) =~= texts_set(
                    self.open@,
                ).insert(dir@));
            }
        }
        self.open = open;
        self.forget(dir);
    }
}

impl Explorer {
    /// Forgets what was read of `dir` and what is in it, so that it is read
    /// again.
    pub fn forget(&mut self, dir: &str)
        ensures
            final(self)@ == (ExplorerView {
                listings: kept_listings(old(self)@.listings, not_under_it(dir@)),
                ..old(self)@
            }),
    {
        proof {
            use_type_invariant(&*self);
        }
        let mut listings: Vec<(String, Option<Vec<Entry>>)> = Vec::new();
        std::mem::swap(&mut listings, &mut self.listings);
        sift(&mut listings, dir, false);
        self.listings = listings;
    }
}

/// A row of the tree.
pub enum Row<'a> {
    Entry { depth: usize, entry: &'a Entry, open: bool },
    Loading { depth: usize },
}

#[verifier::ext_equal]
pub enum RowView {
    Entry { depth: usize, entry: EntryView, open: bool },
    Loading { depth: usize },
}

impl<'a> View for Row<'a> {
    type V = RowView;

    open spec fn view(&self) -> RowView {
        match self {
            Row::Entry { depth, entry, open } => RowView::Entry {
                depth: *depth,
                entry: entry@,
                open: *open,
            },
            Row::Loading { depth } => RowView::Loading { depth: *depth },
        }
    }
}

/// Rows by their views.
pub open spec fn row_views(s: Seq<Row>) -> Seq<RowView> {
    s.map_values(|r: Row| r@)
}

/// Texts by their views.
pub open spec fn path_views(s: Seq<String>) -> Seq<Seq<char>> {
    s.map_values(|t: String| t@)
}

/// One level further in.
pub open spec fn inner(depth: usize) -> usize {
    if depth < usize::MAX {
        (depth + 1) as usize
    } else {
        depth
    }
}

/// Rows, and the folders among them that have not been read.
#[verifier::ext_equal]
pub struct Shown {
    pub rows: Seq<RowView>,
    pub unread: Seq<Seq<char>>,
}

impl Shown {
    pub open spec fn nothing() -> Shown {
        Shown { rows: Seq::empty(), unread: Seq::empty() }
    }

    pub open spec fn and(self, more: Shown) -> Shown {
        Shown { rows: self.rows + more.rows, unread: self.unread + more.unread }
    }
}

/// How much longer than `dir` a path may be.
pub open spec fn room(limit: nat, dir: Seq<char>) -> nat {
    if dir.len() <= limit {
        (limit - dir.len() + 1) as nat
    } else {
        0
    }
}

impl ExplorerView {
    /// A length that no folder which has been read has a longer path than.
    pub open spec fn limit(self) -> nat {
        choose|limit: nat| self.within(limit)
    }

    /// The rows that the tree shows.
    pub open spec fn shown(self) -> Shown {
        match self.root {
            Some(root) => self.folder_rows(root, 0, self.limit()),
            None => Shown::nothing(),
        }
    }

    /// No folder that has been read has a path longer than `limit`, and
    /// every entry's path is longer than its folder's.
    pub open spec fn within(self, limit: nat) -> bool {
        forall|dir: Seq<char>| #[trigger]
            self.listings.dom().contains(dir) ==> dir.len() <= limit && (
            self.listings[dir] matches Some(e) ==> deeper(dir, e))
    }

    /// The rows in a folder: its entries, each open folder among them with
    /// its own rows after it.
    pub open spec fn folder_rows(self, dir: Seq<char>, depth: usize, limit: nat) -> Shown
        decreases room(limit, dir), 1int, 0int,
    {
        if dir.len() > limit || !self.listings.dom().contains(dir) {
            Shown { rows: seq![RowView::Loading { depth }], unread: seq![dir] }
        } else {
            match self.listings[dir] {
                None => Shown { rows: seq![RowView::Loading { depth }], unread: Seq::empty() },
                Some(entries) => self.entry_rows(
                    dir,
                    entries,
                    depth,
                    limit,
                    entries.len() as int,
                ),
            }
        }
    }

    /// The rows of the first `k` entries of a folder.
    pub open spec fn entry_rows(
        self,
        dir: Seq<char>,
        entries: Seq<EntryView>,
        depth: usize,
        limit: nat,
        k: int,
    ) -> Shown
        decreases room(limit, dir), 0int, k,
    {
        if k <= 0 || dir.len() > limit {
            Shown::nothing()
        } else {
            let e = entries[k - 1];
            let open = e.is_dir && self.open.contains(e.path);
            let before = self.entry_rows(dir, entries, depth, limit, k - 1).and(
                Shown { rows: seq![RowView::Entry { depth, entry: e, open }], unread: Seq::empty() },
            );
            if open && e.path.len() > dir.len() {
                before.and(self.folder_rows(e.path, inner(depth), limit))
            } else {
                before
            }
        }
    }
}

proof fn lemma_any_limit(v: ExplorerView, dir: Seq<char>, depth: usize, a: nat, b: nat)
    requires
        v.within(a),
        v.within(b),
    ensures
        v.folder_rows(dir, depth, a) == v.folder_rows(dir, depth, b),
    decreases room(a, dir), 1int, 0int,
{
    if v.listings.dom().contains(dir) {
        match v.listings[dir] {
            Some(entries) => {
                lemma_any_limit_entries(v, dir, entries, depth, a, b, entries.len() as int);
            },
            None => {},
        }
    }
}

proof fn lemma_any_limit_entries(
    v: ExplorerView,
    dir: Seq<char>,
    entries: Seq<EntryView>,
    depth: usize,
    a: nat,
    b: nat,
    k: int,
)
    requires
        v.within(a),
        v.within(b),
        dir.len() <= a,
        dir.len() <= b,
    ensures
        v.entry_rows(dir, entries, depth, a, k) == v.entry_rows(dir, entries, depth, b, k),
    decreases room(a, dir), 0int, k,
{
    if k > 0 {
        lemma_any_limit_entries(v, dir, entries, depth, a, b, k - 1);
        let e = entries[k - 1];
        if e.path.len() > dir.len() {
            lemma_any_limit(v, e.path, inner(depth), a, b);
        }
    }
}

impl Explorer {
    /// The length of the longest path of a folder that has been read.
    fn longest(&self) -> (r: usize)
        ensures
            self@.within(r as nat),
    {
        proof {
            use_type_invariant(self);
        }
        let mut most: usize = 0;
        let mut i: usize = 0;
        while i < self.listings.len()
            invariant
                i <= self.listings@.len(),
                self.well_kept(),
                forall|j: int|
                    0 <= j < i ==> (#[trigger] self.listings@[j]).0@.len() <= most,
            decreases self.listings@.len() - i,
        {
            let v = chars(self.listings[i].0.as_str());
            if v.len() > most {
                most = v.len();
            }
            i = i + 1;
        }
        proof {
            assert forall|dir: Seq<char>| #[trigger]
                self@.listings.dom().contains(dir) implies dir.len() <= most && (
            self@.listings[dir] matches Some(e) ==> deeper(dir, e)) by {
                let j = place_of(self.listings@, dir);
                assert(is_at(self.listings@, dir, j));
                lemma_listing(self.listings@, j);
            }
        }
        most
    }

    fn add_rows<'a>(
        &'a self,
        dir: &str,
        depth: usize,
        limit: usize,
        rows: &mut Vec<Row<'a>>,
        unread: &mut Vec<String>,
    )
        requires
            self@.within(limit as nat),
        ensures
            row_views(final(rows)@) == row_views(old(rows)@) + self@.folder_rows(
                dir@,
                depth,
                limit as nat,
            ).rows,
            path_views(final(unread)@) == path_views(old(unread)@) + self@.folder_rows(
                dir@,
                depth,
                limit as nat,
            ).unread,
        decreases room(limit as nat, dir@),
    {
        let ghost r0 = row_views(rows@);
        let ghost u0 = path_views(unread@);
        let ghost v = self@;
        let ghost l = limit as nat;
        let ghost d = dir@;
        let at = match self.find(dir) {
            None => {
                unread.push(dir.to_owned());
                rows.push(Row::Loading { depth });
                proof {
                    assert(path_views(unread@) =~= u0 + seq![d]);
                    assert(row_views(rows@) =~= r0 + seq![RowView::Loading { depth }]);
                }
                return;
            },
            Some(at) => at,
        };
        let entries = match &self.listings[at].1 {
            None => {
                rows.push(Row::Loading { depth });
                proof {
                    assert(row_views(rows@) =~= r0 + seq![RowView::Loading { depth }]);
                    assert(path_views(unread@) =~= u0 + Seq::<Seq<char>>::empty());
                }
                return;
            },
            Some(entries) => entries,
        };
        let ghost es = entry_views(entries@);
        let mut i: usize = 0;
        proof {
            assert(row_views(rows@) =~= r0 + v.entry_rows(d, es, depth, l, 0).rows);
            assert(path_views(unread@) =~= u0 + v.entry_rows(d, es, depth, l, 0).unread);
        }
        while i < entries.len()
            invariant
                i <= entries@.len(),
                v == self@,
                l == limit as nat,
                d == dir@,
                d.len() <= l,
                v.within(l),
                es == entry_views(entries@),
                deeper(d, es),
                row_views(rows@) == r0 + v.entry_rows(d, es, depth, l, i as int).rows,
                path_views(unread@) == u0 + v.entry_rows(d, es, depth, l, i as int).unread,
            decreases entries@.len() - i,
        {
            let ghost r1 = row_views(rows@);
            let ghost u1 = path_views(unread@);
            let entry = &entries[i];
            assert(es[i as int] == entry@);
            assert(entry@.path.len() > d.len());
            let open = entry.is_dir && self.find_open(entry.path.as_str()).is_some();
            rows.push(Row::Entry { depth, entry, open });
            let ghost own = seq![RowView::Entry { depth, entry: entry@, open }];
            assert(row_views(rows@) =~= r1 + own);
            if open {
                let further: usize = if depth < usize::MAX {
                    depth + 1
                } else {
                    depth
                };
                self.add_rows(entry.path.as_str(), further, limit, rows, unread);
            }
            i = i + 1;
            proof {
                let more = v.entry_rows(d, es, depth, l, i as int);
                assert(row_views(rows@) =~= r0 + more.rows);
                assert(path_views(unread@) =~= u0 + more.unread);
            }
        }
    }

    /// The rows that the tree shows, and the folders among them that are
    /// still to be read.
    pub fn rows<'a>(&'a self) -> (r: (Vec<Row<'a>>, Vec<String>))
        ensures
            row_views(r.0@) == self@.shown().rows,
            path_views(r.1@) == self@.shown().unread,
    {
        let mut rows: Vec<Row<'a>> = Vec::new();
        let mut unread: Vec<String> = Vec::new();
        match &self.root {
            Some(root) => {
                let limit: usize = self.longest();
                let ghost shown = self@.folder_rows(root@, 0, limit as nat);
                proof {
                    assert(row_views(rows@) + shown.rows =~= shown.rows);
                    assert(path_views(unread@) + shown.unread =~= shown.unread);
                }
                self.add_rows(root.as_str(), 0, limit, &mut rows, &mut unread);
                proof {
                    let least = self@.limit();
                    assert(self@.within(least));
                    lemma_any_limit(self@, root@, 0, least, limit as nat);
                }
            },
            None => {
                assert(row_views(rows@) =~= Seq::<RowView>::empty());
                assert(path_views(unread@) =~= Seq::<Seq<char>>::empty());
            },
        }
        (rows, unread)
    }
}

/// Whether a row is that of the entry at `path`.
pub open spec fn row_is(path: Seq<char>) -> spec_fn(RowView) -> bool {
    |r: RowView| r matches RowView::Entry { depth, entry, open } && entry.path == path
}

impl ExplorerView {
    /// The row to scroll to: that of the selected file, where it is to be
    /// brought into view.
    pub open spec fn row_to_reveal(self, rows: Seq<RowView>) -> Option<int> {
        match self.selected {
            Some(file) => {
                let at = crate::wav::first_index(rows, row_is(file), 0);
                if self.reveal && at < rows.len() {
                    Some(at)
                } else {
                    None
                }
            },
            None => None,
        }
    }

    /// The tree once it has been shown. The file sits in the root folder, so
    /// once that is read it has either been scrolled to or is not listed at
    /// all.
    pub open spec fn after_showing(self, revealed: bool) -> ExplorerView {
        let root_read = match self.root {
            Some(root) => self.listings.dom().contains(root) && self.listings[root] is Some,
            None => false,
        };
        if revealed || root_read {
            ExplorerView { reveal: false, ..self }
        } else {
            self
        }
    }
}

impl Explorer {
    /// The row to scroll to.
    pub fn revealed(&self, rows: &Vec<Row>) -> (r: Option<usize>)
        ensures
            match (r, self@.row_to_reveal(row_views(rows@))) {
                (Some(i), Some(at)) => i == at,
                (None, None) => true,
                _ => false,
            },
    {
        let file = match &self.selected {
            Some(file) => file,
            None => {
                return None;
            },
        };
        if !self.reveal {
            return None;
        }
        let ghost all = row_views(rows@);
        let ghost p = row_is(file@);
        let mut i: usize = 0;
        while i < rows.len()
            invariant
                i <= rows@.len(),
                self@.selected == Some(file@),
                self@.reveal,
                all == row_views(rows@),
                p == row_is(file@),
                crate::wav::first_index(all, p, 0) == crate::wav::first_index(all, p, i as int),
            decreases rows@.len() - i,
        {
            assert(all[i as int] == rows@[i as int]@);
            let found = match &rows[i] {
                Row::Entry { entry, .. } => same(entry.path.as_str(), file.as_str()),
                Row::Loading { .. } => false,
            };
            if found {
                return Some(i);
            }
            i = i + 1;
        }
        assert(all.len() == rows@.len());
        None
    }

    /// The tree has been shown, and scrolled to the selected file if
    /// `revealed`.
    pub fn showed(&mut self, revealed: bool)
        ensures
            final(self)@ == old(self)@.after_showing(revealed),
    {
        proof {
            use_type_invariant(&*self);
        }
        let root_read = match &self.root {
            Some(root) => match self.find(root.as_str()) {
                Some(at) => self.listings[at].1.is_some(),
                None => false,
            },
            None => false,
        };
        if revealed || root_read {
            self.reveal = false;
        }
    }
}

/// Whether a row is that of a folder or a file.
pub open spec fn entry_row() -> spec_fn(RowView) -> bool {
    |r: RowView| r is Entry
}

/// Where the last folder or file above row `i` stands, or -1.
pub open spec fn entry_above(rows: Seq<RowView>, i: int) -> int
    decreases i,
{
    if i <= 0 {
        -1
    } else if rows[i - 1] is Entry {
        i - 1
    } else {
        entry_above(rows, i - 1)
    }
}

impl ExplorerView {
    /// The row of the folder or file below or above the one selected, or the
    /// first or last of all where none of the rows is.
    pub open spec fn row_beside(self, rows: Seq<RowView>, down: bool) -> Option<int> {
        let at = match self.selected {
            Some(path) => crate::wav::first_index(rows, row_is(path), 0),
            None => rows.len() as int,
        };
        if down {
            let next = crate::wav::first_index(
                rows,
                entry_row(),
                if at < rows.len() {
                    at + 1
                } else {
                    0
                },
            );
            if next < rows.len() {
                Some(next)
            } else {
                None
            }
        } else {
            let next = entry_above(rows, at);
            if next >= 0 {
                Some(next)
            } else {
                None
            }
        }
    }
}

impl Explorer {
    /// The row of the folder or file below or above the one selected.
    pub fn step(&self, rows: &Vec<Row>, down: bool) -> (r: Option<usize>)
        ensures
            match (r, self@.row_beside(row_views(rows@), down)) {
                (Some(i), Some(at)) => i == at && i < rows@.len(),
                (None, None) => true,
                _ => false,
            },
    {
        let ghost all = row_views(rows@);
        let n: usize = rows.len();
        let mut at: usize = n;
        match &self.selected {
            Some(path) => {
                let ghost p = row_is(path@);
                let mut i: usize = 0;
                while i < n
                    invariant_except_break
                        at == n,
                    invariant
                        i <= n,
                        n == rows@.len(),
                        all == row_views(rows@),
                        p == row_is(path@),
                        crate::wav::first_index(all, p, 0) == crate::wav::first_index(
                            all,
                            p,
                            i as int,
                        ),
                    ensures
                        at <= n,
                        at == crate::wav::first_index(all, p, 0),
                    decreases n - i,
                {
                    assert(all[i as int] == rows@[i as int]@);
                    let found = match &rows[i] {
                        Row::Entry { entry, .. } => same(entry.path.as_str(), path.as_str()),
                        Row::Loading { .. } => false,
                    };
                    if found {
                        at = i;
                        break;
                    }
                    i = i + 1;
                }
            },
            None => {},
        }
        assert(all.len() == n);
        if down {
            let mut i: usize = if at < n {
                at + 1
            } else {
                0
            };
            let ghost from = i as int;
            while i < n
                invariant
                    i <= n,
                    n == rows@.len(),
                    all == row_views(rows@),
                    self@.row_beside(all, down) == (if crate::wav::first_index(
                        all,
                        entry_row(),
                        from,
                    ) < all.len() {
                        Some(crate::wav::first_index(all, entry_row(), from))
                    } else {
                        None
                    }),
                    crate::wav::first_index(all, entry_row(), from) == crate::wav::first_index(
                        all,
                        entry_row(),
                        i as int,
                    ),
                decreases n - i,
            {
                assert(all[i as int] == rows@[i as int]@);
                let is_entry = match &rows[i] {
                    Row::Entry { .. } => true,
                    Row::Loading { .. } => false,
                };
                if is_entry {
                    return Some(i);
                }
                i = i + 1;
            }
            None
        } else {
            let mut i: usize = at;
            while i > 0
                invariant
                    i <= at <= n,
                    n == rows@.len(),
                    all == row_views(rows@),
                    self@.row_beside(all, down) == (if entry_above(all, at as int) >= 0 {
                        Some(entry_above(all, at as int))
                    } else {
                        None
                    }),
                    entry_above(all, at as int) == entry_above(all, i as int),
                decreases i,
            {
                assert(all[i - 1] == rows@[i - 1]@);
                let is_entry = match &rows[i - 1] {
                    Row::Entry { .. } => true,
                    Row::Loading { .. } => false,
                };
                if is_entry {
                    return Some(i - 1);
                }
                i = i - 1;
            }
            None
        }
    }
}

/// A folder that is opened and then closed is as it was before, but for what
/// was read under it.
pub proof fn toggling_twice_only_forgets(v: ExplorerView, dir: Seq<char>)
    ensures
        v.toggled(dir).toggled(dir).open == v.open,
        v.toggled(dir).toggled(dir).listings == kept_listings(v.listings, not_under_it(dir)),
{
    assert(v.toggled(dir).toggled(dir).open =~= v.open);
    let a = kept_listings(v.listings, not_under_it(dir));
    let b = kept_listings(a, not_under_it(dir));
    assert(a.dom() =~= b.dom());
    assert(a =~= b);
}

/// What is read after its folder was closed changes nothing.
pub proof fn a_late_listing_is_dropped(v: ExplorerView, dir: Seq<char>, entries: Seq<EntryView>)
    ensures
        v.toggled(dir).arrived(dir, entries) == v.toggled(dir),
{
    assert(is_under(dir, dir));
}

} // verus!
