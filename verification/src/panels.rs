//! What the panels of the renaming window promise of the names they make.

use crate::explorer::{digit_run, is_audio_path, lemma_digit_run};
use crate::path::{
    a_path_parts_into_folder_and_name, file_name_of, last_of, lemma_last_before, parent_of,
    renaming_stays_in_the_folder,
};
use crate::pattern::{formatted, regex_found, regex_replaced, Moment};
use crate::rename::{
    added, any_case, beside_of, blanked, compile_of, count_to, counter_start, cropped, dated,
    draft_of, draft_one, draft_upto, dropped_words, folded, foldered, folders_of, groups_of,
    holds_reserved, in_word, inserted, invalid_of, join_name, mask_from, matches_mask, moment_for,
    new_name_of, nonempty_of, not_digit, not_high, not_in, not_symbol, number_text_of, numbered,
    parted, recased, reextended, removed, renamed_stem, replaced_by, replaced_of, reserved_of,
    reshaped, restarts, retained, settled, shifted, single_spaced, some_mask, spaced_words,
    split_name, title_of, unaccented_of, unnumbered_of, white_words_of, without_ends,
    without_lead_dots, without_middle, without_words, words_of, AddRule, Candidate, Case, CaseRule,
    CounterView, Crop, DateRule, DateSource, ExtensionMode, ExtensionRule, Filters, FolderRule,
    Kind, MoveMode, MoveRule, NameMode, NameRule, NumberPlace, NumberRule, Place, PlannedView,
    ProblemView, RegexRule, RemoveRule, ReplaceRule, Rules, Side, Treatment, WordChangeView,
};
use crate::text::{
    a_text_splits_at_its_separators, alphanumeric, control, digit, joined, lemma_trimmed, lowercase, lowered, only_the_ends_are_trimmed,
    split_of, tidy, trim_of, trimming_cuts_only_white_space, uppercase, uppered,
    uppered_char, white,
};
use crate::wav::{first_index, lemma_first_index};
use vstd::prelude::*;
use vstd::utf8::{encode_utf8, encode_utf8_decode_utf8};

verus! {

/// Text put into a name at a place counted from one stands right before the
/// character that was there, and at the end of a name too short for that.
pub proof fn inserted_text_stands_at_its_place(a: Seq<char>, b: Seq<char>, text: Seq<char>, at: nat)
    ensures
        at == a.len() + 1 ==> inserted(a + b, text, at) == a + text + b,
        at == 0 ==> inserted(a, text, at) == text + a,
        at > a.len() ==> inserted(a, text, at) == a + text,
{
    if at == a.len() + 1 {
        assert((a + b).take(a.len() as int) =~= a);
        assert((a + b).skip(a.len() as int) =~= b);
    }
    assert(a.take(0) =~= Seq::<char>::empty());
    assert(a.skip(0) =~= a);
    assert(a.take(a.len() as int) =~= a);
    assert(a.skip(a.len() as int) =~= Seq::<char>::empty());
    assert(a + text + Seq::<char>::empty() =~= a + text);
    assert(Seq::<char>::empty() + text + a =~= text + a);
}

proof fn lemma_counts<A>(a: Seq<A>, b: Seq<A>, c: Seq<A>)
    ensures
        (a + b).to_multiset() == a.to_multiset().add(b.to_multiset()),
        (a + b + c).to_multiset() == a.to_multiset().add(b.to_multiset()).add(c.to_multiset()),
{
    vstd::seq_lib::lemma_multiset_commutative(a, b);
    vstd::seq_lib::lemma_multiset_commutative(a + b, c);
}

proof fn lemma_inserted_counts(stem: Seq<char>, text: Seq<char>, at: nat)
    ensures
        inserted(stem, text, at).to_multiset() == stem.to_multiset().add(text.to_multiset()),
{
    let k = if at == 0 {
        0
    } else if at - 1 > stem.len() {
        stem.len() as int
    } else {
        at - 1
    };
    let (a, b) = (stem.take(k), stem.skip(k));
    assert(stem =~= a + b);
    lemma_counts(a, b, b);
    lemma_counts(a, text, b);
    assert(inserted(stem, text, at).to_multiset() =~= stem.to_multiset().add(text.to_multiset()));
}

/// Moving characters elsewhere in a name keeps each of them as often as it was
/// there: with nothing put between, the name has the very characters it had.
/// Copying adds the characters copied, and no others. A separator is added
/// once where it stands between two parts, twice where it stands around one.
pub proof fn moving_keeps_every_character(stem: Seq<char>, rule: MoveRule)
    requires
        rule.mode != MoveMode::Off,
        rule.count > 0,
    ensures
        ({
            let name = shifted(stem, rule).to_multiset();
            let sep = rule.separator@.to_multiset();
            let around = if rule.to == Place::At {
                sep.add(sep)
            } else {
                sep
            };
            let n = if rule.count < stem.len() {
                rule.count as int
            } else {
                stem.len() as int
            };
            match rule.mode {
                MoveMode::CopyFirst => name == stem.to_multiset().add(
                    stem.take(n).to_multiset(),
                ).add(around),
                MoveMode::CopyLast => name == stem.to_multiset().add(
                    stem.skip(stem.len() - n).to_multiset(),
                ).add(around),
                _ => name == stem.to_multiset().add(around),
            }
        }),
        rule.separator@.len() == 0 && (rule.mode == MoveMode::MoveFirst || rule.mode
            == MoveMode::MoveLast) ==> shifted(stem, rule).to_multiset() == stem.to_multiset()
            && shifted(stem, rule).len() == stem.len(),
{
    let sep = rule.separator@;
    let n = if rule.count < stem.len() {
        rule.count as int
    } else {
        stem.len() as int
    };
    let head = rule.mode == MoveMode::CopyFirst || rule.mode == MoveMode::MoveFirst;
    let k = if head {
        n
    } else {
        stem.len() - n
    };
    let (a, b) = (stem.take(k), stem.skip(k));
    let piece = if head {
        a
    } else {
        b
    };
    let rest = match rule.mode {
        MoveMode::MoveFirst => b,
        MoveMode::MoveLast => a,
        _ => stem,
    };
    assert(stem =~= a + b);
    lemma_counts(a, b, b);
    lemma_counts(piece, sep, rest);
    lemma_counts(rest, sep, piece);
    lemma_counts(sep, piece, sep);
    lemma_inserted_counts(rest, sep + piece + sep, rule.at as nat);
    let name = shifted(stem, rule).to_multiset();
    let around = if rule.to == Place::At {
        sep.to_multiset().add(sep.to_multiset())
    } else {
        sep.to_multiset()
    };
    assert(name =~= rest.to_multiset().add(piece.to_multiset()).add(around));
    if rule.mode == MoveMode::MoveFirst || rule.mode == MoveMode::MoveLast {
        assert(name =~= stem.to_multiset().add(around));
    } else {
        assert(name =~= stem.to_multiset().add(piece.to_multiset()).add(around));
    }
    if sep.len() == 0 {
        assert(sep =~= Seq::<char>::empty());
        sep.to_multiset_ensures();
        assert(sep.to_multiset() =~= vstd::multiset::Multiset::<char>::empty());
        stem.to_multiset_ensures();
        shifted(stem, rule).to_multiset_ensures();
        assert(stem.to_multiset().add(around) =~= stem.to_multiset());
    }
}

/// What is moved or copied leads the name or ends it, as asked, and what is
/// left of the name follows it, or comes before it, in its order. A name made
/// of a start `a` and an end `b` shows where each of them goes.
pub proof fn what_is_moved_lands_where_it_is_put(a: Seq<char>, b: Seq<char>, rule: MoveRule)
    requires
        rule.count > 0,
    ensures
        ({
            let name = shifted(a + b, rule);
            let sep = rule.separator@;
            let first = a.len() == rule.count || (a.len() < rule.count && b.len() == 0);
            let last = b.len() == rule.count || (b.len() < rule.count && a.len() == 0);
            &&& rule.mode == MoveMode::Off ==> name == a + b
            &&& rule.to == Place::Start ==> {
                &&& rule.mode == MoveMode::MoveFirst && first ==> name == a + sep + b
                &&& rule.mode == MoveMode::CopyFirst && first ==> name == a + sep + a + b
                &&& rule.mode == MoveMode::MoveLast && last ==> name == b + sep + a
                &&& rule.mode == MoveMode::CopyLast && last ==> name == b + sep + a + b
            }
            &&& rule.to == Place::End ==> {
                &&& rule.mode == MoveMode::MoveFirst && first ==> name == b + sep + a
                &&& rule.mode == MoveMode::CopyFirst && first ==> name == a + b + sep + a
                &&& rule.mode == MoveMode::MoveLast && last ==> name == a + sep + b
                &&& rule.mode == MoveMode::CopyLast && last ==> name == a + b + sep + b
            }
        }),
{
    let s = a + b;
    let sep = rule.separator@;
    assert(s.take(a.len() as int) =~= a);
    assert(s.skip(a.len() as int) =~= b);
    assert(s.len() - b.len() == a.len());
    let name = shifted(s, rule);
    if rule.to == Place::Start {
        assert(a + sep + s =~= a + sep + a + b);
        assert(b + sep + s =~= b + sep + a + b);
    } else if rule.to == Place::End {
        assert(s + sep + a =~= a + b + sep + a);
        assert(s + sep + b =~= a + b + sep + b);
    }
}

/// What is moved into the middle of a name stands there with the separator on
/// both sides, before the character asked for of what is left.
pub proof fn what_is_moved_inside_is_set_apart(
    a: Seq<char>,
    x: Seq<char>,
    y: Seq<char>,
    rule: MoveRule,
)
    requires
        rule.to == Place::At,
        rule.count > 0,
        a.len() == rule.count,
        rule.at == x.len() + 1,
    ensures
        rule.mode == MoveMode::MoveFirst ==> shifted(a + x + y, rule) == x + rule.separator@ + a
            + rule.separator@ + y,
        rule.mode == MoveMode::MoveLast ==> shifted(x + y + a, rule) == x + rule.separator@ + a
            + rule.separator@ + y,
        rule.mode == MoveMode::CopyFirst && a.len() <= x.len() && x.take(a.len() as int) == a
            ==> shifted(x + y, rule) == x + rule.separator@ + a + rule.separator@ + y,
        rule.mode == MoveMode::CopyLast && a.len() <= y.len() && y.skip(y.len() - a.len()) == a
            ==> shifted(x + y, rule) == x + rule.separator@ + a + rule.separator@ + y,
{
    let sep = rule.separator@;
    let middle = sep + a + sep;
    inserted_text_stands_at_its_place(x, y, middle, rule.at as nat);
    assert(x + middle + y =~= x + sep + a + sep + y);
    let front = a + x + y;
    assert(front.take(a.len() as int) =~= a);
    assert(front.skip(a.len() as int) =~= x + y);
    let back = x + y + a;
    assert(back.skip(back.len() - a.len()) =~= a);
    assert(back.take(back.len() - a.len()) =~= x + y);
    let both = x + y;
    if a.len() <= x.len() && x.take(a.len() as int) == a {
        assert(both.take(a.len() as int) =~= a);
    }
    if a.len() <= y.len() && y.skip(y.len() - a.len()) == a {
        assert(both.skip(both.len() - a.len()) =~= a);
    }
}

/// Characters cut off a name's ends are those that were asked for: what stands
/// between is left as it is, and nothing is where the ends meet.
pub proof fn cut_ends_leave_the_middle(a: Seq<char>, m: Seq<char>, b: Seq<char>)
    ensures
        without_ends(a + m + b, a.len(), b.len()) == m,
        forall|first: nat, last: nat|
            first + last >= m.len() ==> #[trigger] without_ends(m, first, last).len() == 0,
{
    let s = a + m + b;
    if m.len() > 0 {
        assert(s.subrange(a.len() as int, s.len() - b.len()) =~= m);
    } else {
        assert(m =~= Seq::<char>::empty());
    }
}

/// Characters cut out of a name, counted from one, leave what stands before
/// and behind them. A stretch that goes past the end is cut up to it, and
/// counting from zero, backwards or from past the end cuts nothing.
pub proof fn a_cut_stretch_leaves_both_sides(a: Seq<char>, m: Seq<char>, b: Seq<char>, past: nat)
    ensures
        m.len() > 0 ==> without_middle(a + m + b, a.len() + 1, a.len() + m.len()) == a + b,
        m.len() > 0 ==> without_middle(a + m, a.len() + 1, a.len() + m.len() + past) == a,
        without_middle(a, 0, past) == a,
        without_middle(a, past + 1, past) == a,
        without_middle(a, a.len() + 1 + past, a.len() + 1 + past + m.len()) == a,
{
    let s = a + m + b;
    let t = a + m;
    if m.len() > 0 {
        assert(s.take(a.len() as int) =~= a);
        assert(s.skip((a.len() + m.len()) as int) =~= b);
        assert(a + Seq::<char>::empty() =~= a);
        assert(t.take(a.len() as int) =~= a);
    }
}

/// Picking characters out of a text keeps the others, in their order and as
/// often as they were there.
pub proof fn picking_out_keeps_the_others(a: Seq<char>, b: Seq<char>, keep: spec_fn(char) -> bool)
    ensures
        retained(a + b, keep) == retained(a, keep) + retained(b, keep),
        forall|c: char|
            (#[trigger] retained(a, keep).to_multiset().count(c)) == if keep(c) {
                a.to_multiset().count(c)
            } else {
                0
            },
        (forall|i: int| 0 <= i < a.len() ==> keep(#[trigger] a[i])) ==> retained(a, keep) == a,
        forall|i: int|
            0 <= i < retained(a, keep).len() ==> keep(#[trigger] retained(a, keep)[i]),
    decreases a.len() + b.len(),
{
    if b.len() > 0 {
        picking_out_keeps_the_others(a, b.drop_last(), keep);
        assert((a + b).drop_last() =~= a + b.drop_last());
        assert((a + b).last() == b.last());
        assert(retained(a + b, keep) =~= retained(a, keep) + retained(b, keep));
    } else {
        assert(a + b =~= a);
        assert(retained(a, keep) + retained(b, keep) =~= retained(a, keep));
        lemma_picked_counts(a, keep);
    }
}

proof fn lemma_picked_counts(a: Seq<char>, keep: spec_fn(char) -> bool)
    ensures
        forall|c: char|
            (#[trigger] retained(a, keep).to_multiset().count(c)) == if keep(c) {
                a.to_multiset().count(c)
            } else {
                0
            },
        (forall|i: int| 0 <= i < a.len() ==> keep(#[trigger] a[i])) ==> retained(a, keep) == a,
        forall|i: int|
            0 <= i < retained(a, keep).len() ==> keep(#[trigger] retained(a, keep)[i]),
    decreases a.len(),
{
    a.to_multiset_ensures();
    if a.len() > 0 {
        let rest = a.drop_last();
        lemma_picked_counts(rest, keep);
        assert(a =~= rest.push(a.last()));
        rest.to_multiset_ensures();
        retained(rest, keep).to_multiset_ensures();
        if forall|i: int| 0 <= i < a.len() ==> keep(#[trigger] a[i]) {
            assert forall|i: int| 0 <= i < rest.len() implies keep(#[trigger] rest[i]) by {
                assert(rest[i] == a[i]);
            }
            assert(keep(a[a.len() - 1]));
            assert(retained(a, keep) =~= a);
        }
    } else {
        assert(a =~= Seq::<char>::empty());
    }
}

/// Double spaces become single ones: none stands beside another any more,
/// every other character is as often there as it was, and a text without two
/// spaces together stays as it is.
pub proof fn no_two_spaces_stay_together(s: Seq<char>)
    ensures
        forall|i: int|
            0 <= i < single_spaced(s).len() - 1 ==> !(#[trigger] single_spaced(s)[i] == ' '
                && single_spaced(s)[i + 1] == ' '),
        retained(single_spaced(s), |c: char| c != ' ') == retained(s, |c: char| c != ' '),
        (forall|i: int| 0 <= i < s.len() - 1 ==> !(#[trigger] s[i] == ' ' && s[i + 1] == ' '))
            ==> single_spaced(s) == s,
        s.len() > 0 ==> single_spaced(s).len() > 0 && single_spaced(s)[0] == s[0]
            && single_spaced(s).last() == s.last(),
    decreases s.len(),
{
    if s.len() > 0 {
        let rest = s.drop_last();
        no_two_spaces_stay_together(rest);
        let other = |c: char| c != ' ';
        let (r, t) = (single_spaced(s), single_spaced(rest));
        if s.last() == ' ' && s.len() > 1 && s[s.len() - 2] == ' ' {
            assert(rest.last() == s[s.len() - 2]);
        } else {
            assert(r.drop_last() =~= t);
            assert forall|i: int| 0 <= i < r.len() - 1 implies !(#[trigger] r[i] == ' ' && r[i + 1]
                == ' ') by {
                assert(r[i] == t[i]);
                if i + 1 == t.len() {
                    assert(rest.last() == s[s.len() - 2]);
                } else {
                    assert(r[i + 1] == t[i + 1]);
                }
            }
        }
        if forall|i: int| 0 <= i < s.len() - 1 ==> !(#[trigger] s[i] == ' ' && s[i + 1] == ' ') {
            assert forall|i: int| 0 <= i < rest.len() - 1 implies !(#[trigger] rest[i] == ' '
                && rest[i + 1] == ' ') by {
                assert(rest[i] == s[i] && rest[i + 1] == s[i + 1]);
            }
            if s.len() > 1 {
                let k = s.len() - 2;
                assert(!(s[k] == ' ' && s[k + 1] == ' '));
            }
            assert(r =~= s);
        }
    }
}

/// Dots are cut from the front of a name, and from nowhere else.
pub proof fn only_leading_dots_are_cut(dots: Seq<char>, s: Seq<char>)
    requires
        forall|i: int| 0 <= i < dots.len() ==> #[trigger] dots[i] == '.',
        s.len() > 0 ==> s[0] != '.',
    ensures
        without_lead_dots(dots + s) == s,
    decreases dots.len(),
{
    if dots.len() > 0 {
        let rest = dots.skip(1);
        assert forall|i: int| 0 <= i < rest.len() implies #[trigger] rest[i] == '.' by {
            assert(rest[i] == dots[i + 1]);
        }
        assert((dots + s)[0] == dots[0]);
        assert((dots + s).skip(1) =~= rest + s);
        only_leading_dots_are_cut(rest, s);
    } else {
        assert(dots + s =~= s);
    }
}

/// Whether `find` stands in `s` at `at`.
pub open spec fn stands_at(s: Seq<char>, find: Seq<char>, at: int) -> bool {
    0 <= at && at + find.len() <= s.len() && s.subrange(at, at + find.len()) == find
}

/// A text in which nothing is found stays as it is, and so does one whose
/// finds are replaced by themselves.
pub proof fn what_is_not_found_is_not_replaced(s: Seq<char>, find: Seq<char>, with: Seq<char>)
    ensures
        (forall|at: int| !#[trigger] stands_at(s, find, at)) ==> replaced_of(s, find, with) == s,
        find.len() == 0 ==> replaced_of(s, find, with) == s,
        replaced_of(s, find, find) == s,
    decreases s.len(),
{
    let n = find.len() as int;
    if n > 0 && s.len() >= n {
        assert(s.take(n) =~= s.subrange(0, n));
        let rest = s.skip(1);
        what_is_not_found_is_not_replaced(rest, find, with);
        what_is_not_found_is_not_replaced(s.skip(n), find, with);
        assert(s =~= seq![s[0]] + rest);
        assert(s =~= s.take(n) + s.skip(n));
        if forall|at: int| !#[trigger] stands_at(s, find, at) {
            assert(!stands_at(s, find, 0));
            assert forall|at: int| !#[trigger] stands_at(rest, find, at) by {
                if stands_at(rest, find, at) {
                    assert(s.subrange(at + 1, at + 1 + n) =~= rest.subrange(at, at + n));
                    assert(stands_at(s, find, at + 1));
                }
            }
        }
    }
}

/// The first find is replaced where it stands, what comes before it is left
/// alone, and what comes behind it is searched on.
pub proof fn the_first_find_is_replaced(x: Seq<char>, find: Seq<char>, y: Seq<char>, with: Seq<char>)
    requires
        find.len() > 0,
        forall|at: int| 0 <= at < x.len() ==> !#[trigger] stands_at(x + find + y, find, at),
    ensures
        replaced_of(x + find + y, find, with) == x + with + replaced_of(y, find, with),
    decreases x.len(),
{
    let s = x + find + y;
    let n = find.len() as int;
    if x.len() == 0 {
        assert(s.take(n) =~= find);
        assert(s.skip(n) =~= y);
        assert(x + with + replaced_of(y, find, with) =~= with + replaced_of(y, find, with));
    } else {
        let rest = x.skip(1);
        assert(s.skip(1) =~= rest + find + y);
        assert(!stands_at(s, find, 0));
        assert(s.take(n) =~= s.subrange(0, n));
        assert forall|at: int| 0 <= at < rest.len() implies !#[trigger] stands_at(
            rest + find + y,
            find,
            at,
        ) by {
            if stands_at(rest + find + y, find, at) {
                assert(s.subrange(at + 1, at + 1 + n) =~= (rest + find + y).subrange(at, at + n));
                assert(stands_at(s, find, at + 1));
            }
        }
        the_first_find_is_replaced(rest, find, y, with);
        assert(s[0] == x[0]);
        assert(x =~= seq![x[0]] + rest);
        assert(replaced_of(s, find, with) =~= x + with + replaced_of(y, find, with));
    }
}

proof fn lemma_words_apart(
    word: Seq<char>,
    a: Seq<char>,
    c: char,
    b: Seq<char>,
    change: WordChangeView,
)
    requires
        !in_word(c),
    ensures
        words_of(word, a + seq![c] + b, change) == words_of(word, a, change) + seq![c] + words_of(
            Seq::empty(),
            b,
            change,
        ),
    decreases a.len(),
{
    let s = a + seq![c] + b;
    let none = Seq::<char>::empty();
    if a.len() == 0 {
        assert(s[0] == c);
        assert(s.skip(1) =~= b);
    } else {
        let rest = a.skip(1);
        assert(s[0] == a[0]);
        assert(s.skip(1) =~= rest + seq![c] + b);
        if in_word(a[0]) {
            lemma_words_apart(word.push(a[0]), rest, c, b, change);
        } else {
            lemma_words_apart(none, rest, c, b, change);
            let ended = if word.len() == 0 {
                none
            } else {
                change.of(word)
            };
            assert(words_of(word, s, change) =~= words_of(word, a, change) + seq![c] + words_of(
                none,
                b,
                change,
            ));
        }
    }
}

proof fn lemma_one_word(word: Seq<char>, s: Seq<char>, change: WordChangeView)
    requires
        forall|i: int| 0 <= i < s.len() ==> in_word(#[trigger] s[i]),
        word.len() + s.len() > 0,
    ensures
        words_of(word, s, change) == change.of(word + s),
    decreases s.len(),
{
    if s.len() == 0 {
        assert(word + s =~= word);
    } else {
        let rest = s.skip(1);
        assert forall|i: int| 0 <= i < rest.len() implies in_word(#[trigger] rest[i]) by {
            assert(rest[i] == s[i + 1]);
        }
        lemma_one_word(word.push(s[0]), rest, change);
        assert(word.push(s[0]) + rest =~= word + s);
        assert(in_word(s[0]));
    }
}

/// Words are changed one by one, each as a whole, and what stands between
/// them stays.
pub proof fn words_are_changed_one_by_one(
    a: Seq<char>,
    c: char,
    b: Seq<char>,
    change: WordChangeView,
)
    ensures
        a.len() > 0 && (forall|i: int| 0 <= i < a.len() ==> in_word(#[trigger] a[i])) ==> words_of(
            Seq::empty(),
            a,
            change,
        ) == change.of(a),
        !in_word(c) ==> words_of(Seq::empty(), a + seq![c] + b, change) == words_of(
            Seq::empty(),
            a,
            change,
        ) + seq![c] + words_of(Seq::empty(), b, change),
        words_of(Seq::empty(), Seq::empty(), change).len() == 0,
{
    let none = Seq::<char>::empty();
    if a.len() > 0 && (forall|i: int| 0 <= i < a.len() ==> in_word(#[trigger] a[i])) {
        lemma_one_word(none, a, change);
        assert(none + a =~= a);
    }
    if !in_word(c) {
        lemma_words_apart(none, a, c, b, change);
    }
}

/// An exception gives a word its spelling and never another word: only the
/// case of its letters can change.
pub proof fn exceptions_only_spell(word: Seq<char>, list: Seq<Seq<char>>)
    ensures
        lowered(WordChangeView::Spelled(list).of(word)) == lowered(word),
        (exists|i: int| 0 <= i < list.len() && lowered(#[trigger] list[i]) == lowered(word))
            ==> list.contains(WordChangeView::Spelled(list).of(word)),
        (forall|i: int| 0 <= i < list.len() ==> lowered(#[trigger] list[i]) != lowered(word))
            ==> WordChangeView::Spelled(list).of(word) == word,
{
    let p = |e: Seq<char>| lowered(e) == lowered(word);
    lemma_first_index(list, p, 0);
    let at = first_index(list, p, 0);
    if at < list.len() {
        assert(p(list[at]));
    } else {
        assert forall|i: int| 0 <= i < list.len() implies lowered(#[trigger] list[i]) != lowered(
            word,
        ) by {
            assert(!p(list[i]));
        }
    }
}

/// A word of the list is dropped, whatever its case, and any other stays.
pub proof fn only_listed_words_are_dropped(word: Seq<char>, list: Seq<Seq<char>>)
    ensures
        list.contains(lowered(word)) ==> WordChangeView::Dropped(list).of(word).len() == 0,
        !list.contains(lowered(word)) ==> WordChangeView::Dropped(list).of(word) == word,
{
}

/// In title case a word has its first letter large and the others small.
pub proof fn a_title_has_its_first_letter_large(word: Seq<char>, first: char, rest: Seq<char>)
    requires
        lowered(word) == seq![first] + rest,
    ensures
        title_of(word) == uppered_char(first) + rest,
{
    assert(lowered(word).skip(1) =~= rest);
}

/// Whether a word starts at `i` of `s` that only its capital tells.
pub open spec fn starts_inside(s: Seq<char>, i: int) -> bool {
    0 < i < s.len() && uppercase(s[i]) && (lowercase(s[i - 1]) || digit(s[i - 1]))
}

/// Spacing words out puts spaces in and does nothing else: a capital no longer
/// follows a small letter or a digit, and a text where none does stays as it is.
pub proof fn spacing_out_only_adds_spaces(s: Seq<char>)
    ensures
        retained(spaced_words(s), |c: char| c != ' ') == retained(s, |c: char| c != ' '),
        forall|i: int|
            #[trigger] starts_inside(spaced_words(s), i) ==> spaced_words(s)[i] == ' '
                || spaced_words(s)[i - 1] == ' ',
        (forall|i: int| !#[trigger] starts_inside(s, i)) ==> spaced_words(s) == s,
        s.len() > 0 ==> spaced_words(s).len() > 0 && spaced_words(s).last() == s.last(),
    decreases s.len(),
{
    if s.len() > 0 {
        let rest = s.drop_last();
        let n = s.len() as int;
        spacing_out_only_adds_spaces(rest);
        let (r, t) = (spaced_words(s), spaced_words(rest));
        let c = s.last();
        if n > 1 {
            assert(rest.last() == s[n - 2]);
        }
        let other = |c: char| c != ' ';
        let inside = starts_inside(s, n - 1);
        if inside {
            assert(r == t.push(' ').push(c));
            assert(r.drop_last() =~= t.push(' '));
            assert(t.push(' ').drop_last() =~= t);
            assert(retained(t.push(' '), other) == retained(t, other));
        } else {
            assert(r == t.push(c));
            assert(r.drop_last() =~= t);
        }
        assert(retained(r, other) == retained(s, other));
        assert forall|i: int| #[trigger] starts_inside(r, i) implies r[i] == ' ' || r[i - 1]
            == ' ' by {
            if i < t.len() {
                assert(r[i] == t[i] && r[i - 1] == t[i - 1]);
                assert(starts_inside(t, i));
            }
        }
        if forall|i: int| !#[trigger] starts_inside(s, i) {
            assert(!inside);
            assert forall|i: int| !#[trigger] starts_inside(rest, i) by {
                if starts_inside(rest, i) {
                    assert(starts_inside(s, i));
                }
            }
            assert(r =~= s);
        }
    }
}

/// What is added stands around the name, or in it where it was asked for, and
/// the name itself is left as it is.
pub proof fn added_text_stands_around_the_name(a: Seq<char>, b: Seq<char>, rule: AddRule)
    requires
        !rule.word_space,
    ensures
        rule.at == 0 || rule.insert@.len() == 0 ==> added(a, rule) == rule.prefix@ + a
            + rule.suffix@,
        rule.at == a.len() + 1 ==> added(a + b, rule) == rule.prefix@ + a + rule.insert@ + b
            + rule.suffix@,
        rule.at > a.len() ==> added(a, rule) == rule.prefix@ + a + rule.insert@ + rule.suffix@,
{
    inserted_text_stands_at_its_place(a, b, rule.insert@, rule.at as nat);
    if rule.at == a.len() + 1 {
        if rule.insert@.len() == 0 {
            assert(a + rule.insert@ + b =~= a + b);
        }
        assert(rule.prefix@ + (a + rule.insert@ + b) + rule.suffix@ =~= rule.prefix@ + a
            + rule.insert@ + b + rule.suffix@);
    }
    if rule.at > a.len() {
        if rule.insert@.len() == 0 {
            assert(a + rule.insert@ =~= a);
        }
        assert(rule.prefix@ + (a + rule.insert@) + rule.suffix@ =~= rule.prefix@ + a + rule.insert@
            + rule.suffix@);
    }
}

/// Text joined on to a name stands on its side of it, with the separator
/// between them and nowhere else; where either is empty there is only the
/// other.
pub proof fn joined_text_stands_on_its_side(
    stem: Seq<char>,
    text: Seq<char>,
    sep: Seq<char>,
    side: Side,
)
    requires
        side != Side::Off,
    ensures
        ({
            let name = beside_of(stem, text, sep, side);
            let (first, last) = if side == Side::Prefix {
                (text, stem)
            } else {
                (stem, text)
            };
            &&& stem.len() == 0 ==> name == text
            &&& text.len() == 0 ==> name == stem
            &&& stem.len() > 0 && text.len() > 0 ==> {
                &&& name.len() == stem.len() + sep.len() + text.len()
                &&& name.take(first.len() as int) == first
                &&& name.skip(name.len() - last.len()) == last
                &&& name.subrange(first.len() as int, (first.len() + sep.len()) as int) == sep
            }
        }),
{
    let name = beside_of(stem, text, sep, side);
    let (first, last) = if side == Side::Prefix {
        (text, stem)
    } else {
        (stem, text)
    };
    if stem.len() == 0 && text.len() == 0 {
        assert(stem =~= text);
    }
    if stem.len() > 0 && text.len() > 0 {
        assert(name.take(first.len() as int) =~= first);
        assert(name.skip(name.len() - last.len()) =~= last);
        assert(name.subrange(first.len() as int, (first.len() + sep.len()) as int) =~= sep);
    }
}

/// A number stands where it was asked for: on one side of the name, on both,
/// or before the character of its place.
pub proof fn a_number_stands_at_its_place(
    a: Seq<char>,
    b: Seq<char>,
    number: i64,
    rule: NumberRule,
)
    requires
        a.len() > 0,
        number_text_of(number, rule).len() > 0,
    ensures
        ({
            let text = number_text_of(number, rule);
            let sep = rule.separator@;
            &&& rule.place == NumberPlace::Off ==> numbered(a, number, rule) == a
            &&& rule.place == NumberPlace::Prefix ==> numbered(a, number, rule) == text + sep + a
            &&& rule.place == NumberPlace::Suffix ==> numbered(a, number, rule) == a + sep + text
            &&& rule.place == NumberPlace::Both ==> numbered(a, number, rule) == text + sep + a
                + sep + text
            &&& rule.place == NumberPlace::At && rule.at == a.len() + 1 ==> numbered(
                a + b,
                number,
                rule,
            ) == a + text + b
            &&& rule.place == NumberPlace::At && rule.at > a.len() ==> numbered(a, number, rule)
                == a + text
            &&& rule.place == NumberPlace::At && rule.at == 0 ==> numbered(a, number, rule) == text
                + a
        }),
{
    inserted_text_stands_at_its_place(a, b, number_text_of(number, rule), rule.at as nat);
}

/// A name made of a stem and an extension parts into them at its last dot. A
/// name without a dot, or with none but the first character, has no extension.
pub proof fn a_name_parts_at_its_last_dot(stem: Seq<char>, ext: Seq<char>)
    requires
        forall|i: int| 0 <= i < ext.len() ==> #[trigger] ext[i] != '.',
    ensures
        stem.len() > 0 ==> split_name(stem + seq!['.'] + ext) == (stem, ext),
        split_name(ext) == (ext, Seq::<char>::empty()),
        split_name(seq!['.'] + ext) == (seq!['.'] + ext, Seq::<char>::empty()),
        stem.len() > 0 && ext.len() > 0 ==> join_name(stem, ext) == stem + seq!['.'] + ext
            && split_name(join_name(stem, ext)) == (stem, ext),
        join_name(stem, Seq::empty()) == stem,
{
    let name = stem + seq!['.'] + ext;
    let k = stem.len() as int;
    assert(name[k] == '.');
    lemma_last_dot(name, k);
    if stem.len() > 0 {
        assert(name.take(k) =~= stem);
        assert(name.skip(k + 1) =~= ext);
    }
    lemma_no_dot(ext);
    let hidden = seq!['.'] + ext;
    assert(hidden[0] == '.');
    lemma_last_dot(hidden, 0);
}

proof fn lemma_last_dot(name: Seq<char>, k: int)
    requires
        0 <= k < name.len(),
        name[k] == '.',
        forall|i: int| k < i < name.len() ==> #[trigger] name[i] != '.',
    ensures
        last_of(name, '.') == k,
{
    crate::path::lemma_last_before(name, '.', name.len() as int);
}

proof fn lemma_no_dot(name: Seq<char>)
    requires
        forall|i: int| 0 <= i < name.len() ==> #[trigger] name[i] != '.',
    ensures
        last_of(name, '.') <= 0,
{
    crate::path::lemma_last_before(name, '.', name.len() as int);
}

proof fn lemma_mask_shifts(
    p: Seq<char>,
    t: Seq<char>,
    i: int,
    j: int,
    di: int,
    dj: int,
)
    requires
        0 <= i,
        0 <= j <= t.len() - dj,
        0 <= di <= p.len(),
        0 <= dj <= t.len(),
    ensures
        mask_from(p, t, i + di, j + dj) == mask_from(p.skip(di), t.skip(dj), i, j),
    decreases p.len() - di - i, t.len() - dj - j,
{
    let (q, u) = (p.skip(di), t.skip(dj));
    if i < q.len() {
        assert(q[i] == p[i + di]);
        if q[i] == '*' {
            lemma_mask_shifts(p, t, i + 1, j, di, dj);
            if j < u.len() {
                lemma_mask_shifts(p, t, i, j + 1, di, dj);
            }
        } else if j < u.len() {
            assert(u[j] == t[j + dj]);
            lemma_mask_shifts(p, t, i + 1, j + 1, di, dj);
        }
    }
}

/// A mask is matched from its start: a star takes any run of characters, a
/// question mark any one, and any other character only itself. A mask without
/// them matches nothing but its own text, and a star alone matches every text.
pub proof fn a_mask_matches_from_its_start(p: Seq<char>, c: char, t: Seq<char>)
    ensures
        matches_mask(Seq::empty(), t) <==> t.len() == 0,
        c != '*' ==> (matches_mask(seq![c] + p, t) <==> t.len() > 0 && (c == '?' || c == t[0])
            && matches_mask(p, t.skip(1))),
        matches_mask(seq!['*'] + p, t) <==> exists|k: int|
            0 <= k <= t.len() && #[trigger] matches_mask(p, t.skip(k)),
        matches_mask(seq!['*'], t),
        (forall|i: int| 0 <= i < p.len() ==> #[trigger] p[i] != '*' && p[i] != '?') ==> (
        matches_mask(p, t) <==> p == t),
{
    let m = seq![c] + p;
    assert(m.skip(1) =~= p);
    assert(t.skip(0) =~= t);
    if t.len() > 0 {
        lemma_mask_shifts(m, t, 0, 0, 1, 1);
    }
    let star = seq!['*'] + p;
    assert(star.skip(1) =~= p);
    lemma_star(p, t, 0);
    assert forall|k: int| 0 <= k <= t.len() implies mask_from(star, t, 1, k) == #[trigger]
        matches_mask(p, t.skip(k)) by {
        lemma_mask_shifts(star, t, 0, 0, 1, k);
    }
    if mask_from(star, t, 0, 0) {
        let k = choose|k: int| 0 <= k <= t.len() && #[trigger] mask_from(star, t, 1, k);
        assert(matches_mask(p, t.skip(k)));
    }
    if exists|k: int| 0 <= k <= t.len() && #[trigger] matches_mask(p, t.skip(k)) {
        let k = choose|k: int| 0 <= k <= t.len() && #[trigger] matches_mask(p, t.skip(k));
        assert(mask_from(star, t, 1, k));
    }
    let none = Seq::<char>::empty();
    lemma_star(none, t, 0);
    assert(seq!['*'] + none =~= seq!['*']);
    assert(mask_from(seq!['*'], t, 1, t.len() as int));
    if forall|i: int| 0 <= i < p.len() ==> #[trigger] p[i] != '*' && p[i] != '?' {
        lemma_plain_mask(p, t, 0);
        assert(p.skip(0) =~= p);
    }
}

proof fn lemma_star(p: Seq<char>, t: Seq<char>, j: int)
    requires
        0 <= j <= t.len(),
    ensures
        mask_from(seq!['*'] + p, t, 0, j) <==> exists|k: int|
            j <= k <= t.len() && #[trigger] mask_from(seq!['*'] + p, t, 1, k),
    decreases t.len() - j,
{
    let star = seq!['*'] + p;
    assert(star[0] == '*');
    if j < t.len() {
        lemma_star(p, t, j + 1);
    }
    if mask_from(star, t, 1, j) {
        assert(mask_from(star, t, 0, j));
    }
}

proof fn lemma_plain_mask(p: Seq<char>, t: Seq<char>, i: int)
    requires
        0 <= i <= p.len(),
        i <= t.len(),
        forall|i: int| 0 <= i < p.len() ==> #[trigger] p[i] != '*' && p[i] != '?',
    ensures
        mask_from(p, t, i, i) <==> p.skip(i) == t.skip(i),
    decreases p.len() - i,
{
    if i < p.len() && i < t.len() {
        lemma_plain_mask(p, t, i + 1);
        assert(p.skip(i) =~= seq![p[i]] + p.skip(i + 1));
        assert(t.skip(i) =~= seq![t[i]] + t.skip(i + 1));
        if p.skip(i) == t.skip(i) {
            assert(p[i] == p.skip(i)[0]);
            assert(t[i] == t.skip(i)[0]);
            assert(p.skip(i + 1) =~= p.skip(i).skip(1));
            assert(t.skip(i + 1) =~= t.skip(i).skip(1));
        }
    } else if i >= p.len() && i >= t.len() {
        assert(p.skip(i) =~= t.skip(i));
    } else {
        assert(p.skip(i).len() != t.skip(i).len());
    }
}

/// A name is refused exactly where no disk could hold it as it is: where it is
/// blank, has white space at an end, starts with a dot, is too long, or holds
/// a control character or one that a path or the system gives a meaning.
pub proof fn a_name_that_is_let_through_can_be_one(name: Seq<char>, windows: bool)
    requires
        encode_utf8(name).len() <= usize::MAX,
    ensures
        invalid_of(name, windows) is None <==> {
            &&& name.len() > 0
            &&& tidy(name)
            &&& name[0] != '.'
            &&& encode_utf8(name).len() <= 255
            &&& forall|i: int| 0 <= i < name.len() ==> !barred(#[trigger] name[i], windows)
        },
{
    let none = Seq::<char>::empty();
    if tidy(name) {
        trimming_cuts_only_white_space(none, name, none);
        assert(none + name + none =~= name);
    }
    lemma_trimmed(name);
    if trim_of(name) == name && name.len() > 0 {
        assert(tidy(name));
    }
    assert forall|c: char| reserved_of(windows).contains(c) || control(c) <==> #[trigger] barred(
        c,
        windows,
    ) by {
        lemma_reserved(c, windows);
    }
    assert(holds_reserved(name, windows) <==> exists|i: int|
        0 <= i < name.len() && barred(#[trigger] name[i], windows));
}

/// Whether no name can hold a character.
pub open spec fn barred(c: char, windows: bool) -> bool {
    ||| c as u32 <= 0x1F
    ||| 0x7F <= c as u32 <= 0x9F
    ||| c == '/' || c == '\\' || c == ':'
    ||| windows && (c == '<' || c == '>' || c == '"' || c == '|' || c == '?' || c == '*')
}

pub proof fn lemma_reserved(c: char, windows: bool)
    ensures
        reserved_of(windows).contains(c) || control(c) <==> barred(c, windows),
{
    let r = reserved_of(windows);
    if r.contains(c) {
        let i = choose|i: int| 0 <= i < r.len() && r[i] == c;
        assert(r[i] == c);
    }
    assert(r[0] == '/' && r[1] == '\\' && r[2] == ':');
    assert(r.contains(r[0]) && r.contains(r[1]) && r.contains(r[2]));
    if windows {
        assert(r[3] == '<' && r[4] == '>' && r[5] == '"' && r[6] == '|' && r[7] == '?' && r[8]
            == '*');
        assert(r.contains(r[3]) && r.contains(r[4]) && r.contains(r[5]) && r.contains(r[6])
            && r.contains(r[7]) && r.contains(r[8]));
    }
}

/// Whether every character of a text passes.
pub open spec fn all_pass(s: Seq<char>, p: spec_fn(char) -> bool) -> bool {
    forall|i: int| 0 <= i < s.len() ==> p(#[trigger] s[i])
}

proof fn lemma_trim_passes(s: Seq<char>, p: spec_fn(char) -> bool)
    requires
        all_pass(s, p),
    ensures
        all_pass(trim_of(s), p),
{
    let (a, b) = only_the_ends_are_trimmed(s);
    assert forall|i: int| 0 <= i < trim_of(s).len() implies p(#[trigger] trim_of(s)[i]) by {
        assert(trim_of(s)[i] == s[a.len() + i]);
    }
}

proof fn lemma_retained_passes(s: Seq<char>, keep: spec_fn(char) -> bool, p: spec_fn(char) -> bool)
    requires
        all_pass(s, p),
    ensures
        all_pass(retained(s, keep), p),
    decreases s.len(),
{
    if s.len() > 0 {
        let rest = s.drop_last();
        assert forall|i: int| 0 <= i < rest.len() implies p(#[trigger] rest[i]) by {
            assert(rest[i] == s[i]);
        }
        lemma_retained_passes(rest, keep, p);
        assert(p(s[s.len() - 1]));
    }
}

proof fn lemma_spaced_passes(s: Seq<char>, p: spec_fn(char) -> bool)
    requires
        all_pass(s, p),
    ensures
        all_pass(single_spaced(s), p),
    decreases s.len(),
{
    if s.len() > 0 {
        let rest = s.drop_last();
        assert forall|i: int| 0 <= i < rest.len() implies p(#[trigger] rest[i]) by {
            assert(rest[i] == s[i]);
        }
        lemma_spaced_passes(rest, p);
        assert(p(s[s.len() - 1]));
    }
}

proof fn lemma_dots_cut(s: Seq<char>) -> (k: int)
    ensures
        0 <= k <= s.len(),
        without_lead_dots(s) == s.skip(k),
        without_lead_dots(s).len() > 0 ==> without_lead_dots(s)[0] != '.',
    decreases s.len(),
{
    if s.len() > 0 && s[0] == '.' {
        let k = lemma_dots_cut(s.skip(1));
        assert(s.skip(1).skip(k) =~= s.skip(k + 1));
        k + 1
    } else {
        assert(s.skip(0) =~= s);
        0
    }
}

proof fn lemma_last_steps_pass(s: Seq<char>, rule: RemoveRule, p: spec_fn(char) -> bool)
    requires
        all_pass(s, p),
    ensures
        all_pass(last_steps(s, rule), p),
{
    lemma_spaced_passes(s, p);
    let t = if rule.double_spaces {
        single_spaced(s)
    } else {
        s
    };
    lemma_trim_passes(t, p);
    let u = if rule.trim {
        trim_of(t)
    } else {
        t
    };
    let k = lemma_dots_cut(u);
    assert forall|i: int| 0 <= i < u.skip(k).len() implies p(#[trigger] u.skip(k)[i]) by {
        assert(u.skip(k)[i] == u[k + i]);
    }
}

spec fn last_steps(s: Seq<char>, rule: RemoveRule) -> Seq<char> {
    let t = if rule.double_spaces {
        single_spaced(s)
    } else {
        s
    };
    let u = if rule.trim {
        trim_of(t)
    } else {
        t
    };
    if rule.lead_dots {
        without_lead_dots(u)
    } else {
        u
    }
}

/// Whether two neighbours in a text are both spaces.
pub open spec fn has_double_space(s: Seq<char>) -> bool {
    exists|i: int| 0 <= i < s.len() - 1 && #[trigger] s[i] == ' ' && s[i + 1] == ' '
}

/// What a removal was asked to take out is not in the name it leaves: signs,
/// characters outside plain ASCII, double spaces, dots in front, spaces at the
/// ends and, unless letters lose their accents afterwards, digits.
pub proof fn what_is_removed_is_gone(stem: Seq<char>, rule: RemoveRule)
    ensures
        ({
            let name = removed(stem, rule);
            &&& rule.symbols ==> all_pass(
                name,
                |c: char| alphanumeric(c) || c == ' ' || c == '-' || c == '_',
            )
            &&& rule.high ==> all_pass(name, |c: char| c as u32 <= 0x7F)
            &&& rule.digits && !rule.accents ==> all_pass(name, |c: char| !digit(c))
            &&& rule.double_spaces ==> !has_double_space(name)
            &&& rule.lead_dots && name.len() > 0 ==> name[0] != '.'
            &&& rule.trim && name.len() > 0 ==> !white(name.last())
            &&& rule.trim && !rule.lead_dots ==> tidy(name)
        }),
{
    let signs = |c: char| alphanumeric(c) || c == ' ' || c == '-' || c == '_';
    let low = |c: char| c as u32 <= 0x7F;
    let other = |c: char| !digit(c);
    let none = Seq::<char>::empty();
    let s3 = before_accents(stem, rule);
    picking_out_keeps_the_others(s3, none, not_digit());
    let s4 = if rule.digits {
        retained(s3, not_digit())
    } else {
        s3
    };
    let s5 = if rule.accents {
        s4.map_values(|c: char| unaccented_of(c))
    } else {
        s4
    };
    picking_out_keeps_the_others(s5, none, not_symbol());
    let s6 = if rule.symbols {
        retained(s5, not_symbol())
    } else {
        s5
    };
    picking_out_keeps_the_others(s6, none, not_high());
    let s7 = if rule.high {
        retained(s6, not_high())
    } else {
        s6
    };
    assert(removed(stem, rule) == last_steps(s7, rule));
    if rule.symbols {
        assert forall|i: int| 0 <= i < s6.len() implies signs(#[trigger] s6[i]) by {
            assert(not_symbol()(s6[i]));
        }
        lemma_retained_passes(s6, not_high(), signs);
        lemma_last_steps_pass(s7, rule, signs);
    }
    if rule.high {
        assert forall|i: int| 0 <= i < s7.len() implies low(#[trigger] s7[i]) by {
            assert(not_high()(s7[i]));
        }
        lemma_last_steps_pass(s7, rule, low);
    }
    if rule.digits && !rule.accents {
        assert forall|i: int| 0 <= i < s4.len() implies other(#[trigger] s4[i]) by {
            assert(not_digit()(s4[i]));
        }
        lemma_retained_passes(s5, not_symbol(), other);
        lemma_retained_passes(s6, not_high(), other);
        lemma_last_steps_pass(s7, rule, other);
    }
    lemma_last_steps(s7, rule);
}

spec fn before_accents(stem: Seq<char>, rule: RemoveRule) -> Seq<char> {
    let s = without_middle(
        without_ends(stem, rule.first as nat, rule.last as nat),
        rule.from as nat,
        rule.to as nat,
    );
    let s = if rule.chars@.len() == 0 {
        s
    } else {
        retained(s, not_in(rule.chars@))
    };
    cropped(without_words(s, rule.words@), rule.crop, rule.crop_at@)
}

proof fn lemma_last_steps(s: Seq<char>, rule: RemoveRule)
    ensures
        ({
            let name = last_steps(s, rule);
            &&& rule.double_spaces ==> !has_double_space(name)
            &&& rule.lead_dots && name.len() > 0 ==> name[0] != '.'
            &&& rule.trim && name.len() > 0 ==> !white(name.last())
            &&& rule.trim && !rule.lead_dots ==> tidy(name)
        }),
{
    no_two_spaces_stay_together(s);
    let t = if rule.double_spaces {
        single_spaced(s)
    } else {
        s
    };
    let (a, b) = only_the_ends_are_trimmed(t);
    let u = if rule.trim {
        trim_of(t)
    } else {
        t
    };
    let d = if rule.trim {
        a.len() as int
    } else {
        0
    };
    let k = lemma_dots_cut(u);
    let name = last_steps(s, rule);
    let e = if rule.lead_dots {
        d + k
    } else {
        d
    };
    if rule.double_spaces {
        assert(!has_double_space(name)) by {
            if has_double_space(name) {
                let i = choose|i: int|
                    0 <= i < name.len() - 1 && #[trigger] name[i] == ' ' && name[i + 1] == ' ';
                assert(name[i] == t[e + i]);
                assert(name[i + 1] == t[e + i + 1]);
            }
        }
    }
    if rule.trim && name.len() > 0 {
        assert(name.last() == u.last());
    }
}

/// Whether a removal only has switches that are the ones given.
pub open spec fn only_switches(rule: RemoveRule, on: (bool, bool, bool, bool)) -> bool {
    &&& rule.first == 0 && rule.last == 0 && rule.from == 0
    &&& trim_of(rule.words@).len() == 0 && rule.crop == Crop::Off
    &&& rule.digits == on.0 && rule.symbols == on.1 && rule.high == on.2
    &&& !rule.accents && rule.double_spaces == on.3
    &&& !rule.trim && !rule.lead_dots
}

/// What a removal was not asked to take out stays, as often as it was there.
pub proof fn what_is_not_removed_stays(stem: Seq<char>, rule: RemoveRule)
    ensures
        only_switches(rule, (false, false, false, false)) ==> forall|c: char|
            (#[trigger] removed(stem, rule).to_multiset().count(c)) == if rule.chars@.contains(c) {
                0
            } else {
                stem.to_multiset().count(c)
            },
        only_switches(rule, (true, false, false, false)) && rule.chars@.len() == 0 ==> forall|
            c: char,
        |
            (#[trigger] removed(stem, rule).to_multiset().count(c)) == if digit(c) {
                0
            } else {
                stem.to_multiset().count(c)
            },
        only_switches(rule, (false, true, false, false)) && rule.chars@.len() == 0 ==> forall|
            c: char,
        |
            (#[trigger] removed(stem, rule).to_multiset().count(c)) == if alphanumeric(c) || c == ' '
                || c == '-' || c == '_' {
                stem.to_multiset().count(c)
            } else {
                0
            },
        only_switches(rule, (false, false, true, false)) && rule.chars@.len() == 0 ==> forall|
            c: char,
        |
            (#[trigger] removed(stem, rule).to_multiset().count(c)) == if c as u32 <= 0x7F {
                stem.to_multiset().count(c)
            } else {
                0
            },
{
    let none = Seq::<char>::empty();
    assert(without_ends(stem, 0, 0) =~= stem);
    picking_out_keeps_the_others(stem, none, not_in(rule.chars@));
    picking_out_keeps_the_others(stem, none, not_digit());
    picking_out_keeps_the_others(stem, none, not_symbol());
    picking_out_keeps_the_others(stem, none, not_high());
}

/// A removal of characters counted from the ends leaves what stands between.
pub proof fn counted_characters_are_removed(
    a: Seq<char>,
    m: Seq<char>,
    b: Seq<char>,
    rule: RemoveRule,
)
    requires
        rule.chars@.len() == 0,
        trim_of(rule.words@).len() == 0,
        rule.crop == Crop::Off,
        !rule.digits && !rule.accents && !rule.symbols && !rule.high && !rule.trim
            && !rule.double_spaces && !rule.lead_dots,
    ensures
        rule.from == 0 && rule.first == a.len() && rule.last == b.len() ==> removed(
            a + m + b,
            rule,
        ) == m,
        rule.first == 0 && rule.last == 0 && m.len() > 0 && rule.from == a.len() + 1 && rule.to
            == a.len() + m.len() ==> removed(a + m + b, rule) == a + b,
{
    cut_ends_leave_the_middle(a, m, b);
    a_cut_stretch_leaves_both_sides(a, m, b, 0);
    assert(without_ends(a + m + b, 0, 0) =~= a + m + b);
}

proof fn lemma_encoded_apart(a: Seq<char>, b: Seq<char>)
    ensures
        encode_utf8(a + b) == encode_utf8(a) + encode_utf8(b),
    decreases a.len(),
{
    if a.len() == 0 {
        assert(a + b =~= b);
        assert(encode_utf8(a) + encode_utf8(b) =~= encode_utf8(b));
    } else {
        assert((a + b).drop_first() =~= a.drop_first() + b);
        lemma_encoded_apart(a.drop_first(), b);
        assert((a + b)[0] == a[0]);
        assert(encode_utf8(a + b) =~= encode_utf8(a) + encode_utf8(b));
    }
}

/// A name cropped at a text keeps the text: what comes before it goes, or what
/// comes behind it.
pub proof fn cropping_keeps_what_was_found(
    x: Seq<char>,
    y: Seq<char>,
    z: Seq<char>,
    crop: Crop,
    crop_at: Seq<char>,
    start: nat,
    end: nat,
)
    requires
        crop_at.len() > 0,
        regex_found(any_case(crop_at), x + y + z) == Some((start, end)),
        start == encode_utf8(x).len(),
        end == encode_utf8(x + y).len(),
    ensures
        crop == Crop::Before ==> cropped(x + y + z, crop, crop_at) == y + z,
        crop == Crop::After ==> cropped(x + y + z, crop, crop_at) == x + y,
        crop == Crop::Off ==> cropped(x + y + z, crop, crop_at) == x + y + z,
{
    let s = x + y + z;
    lemma_encoded_apart(x + y, z);
    assert(s =~= x + (y + z));
    lemma_encoded_apart(x, y + z);
    let e = encode_utf8(s);
    assert(e.subrange(start as int, e.len() as int) =~= encode_utf8(y + z));
    assert(e.subrange(0, end as int) =~= encode_utf8(x + y));
    encode_utf8_decode_utf8(y + z);
    encode_utf8_decode_utf8(x + y);
}

/// A group is called by its number: a backslash and digits become the name
/// that the pattern has for it, and any other text stays as it is.
pub proof fn groups_are_called_by_number(d: Seq<char>, c: char, rest: Seq<char>)
    requires
        d.len() > 0,
        forall|i: int| 0 <= i < d.len() ==> digit(#[trigger] d[i]),
    ensures
        rest.len() == 0 || !digit(rest[0]) ==> groups_of(seq!['\\'] + d + rest) == seq!['$', '{'] + d
            + seq!['}'] + groups_of(rest),
        c != '\\' || rest.len() == 0 || !digit(rest[0]) ==> groups_of(seq![c] + rest) == seq![c]
            + groups_of(rest),
        groups_of(Seq::empty()).len() == 0,
{
    let s = seq!['\\'] + d + rest;
    assert(s[0] == '\\');
    assert(s[1] == d[0]);
    assert(s.skip(1) =~= d + rest);
    if rest.len() == 0 || !digit(rest[0]) {
        lemma_digit_run(d + rest);
        let n = digit_run(d + rest) as int;
        if n < d.len() {
            assert((d + rest)[n] == d[n]);
        } else if n > d.len() {
            assert((d + rest)[d.len() as int] == rest[0]);
        }
        assert(n == d.len());
        assert(s.subrange(1, 1 + n) =~= d);
        assert(s.skip(1 + n) =~= rest);
    }
    let t = seq![c] + rest;
    assert(t[0] == c);
    assert(t.skip(1) =~= rest);
    if rest.len() > 0 {
        assert(t[1] == rest[0]);
    }
}

/// A new extension follows its rule: none where it is removed, and the text
/// without the dots before it where it is fixed, or behind the old one.
pub proof fn an_extension_follows_its_rule(ext: Seq<char>, rule: ExtensionRule)
    ensures
        rule.mode == ExtensionMode::Same ==> reextended(ext, rule) == ext,
        rule.mode == ExtensionMode::Remove ==> reextended(ext, rule).len() == 0,
        rule.mode == ExtensionMode::Lower ==> reextended(ext, rule) == lowered(ext),
        rule.mode == ExtensionMode::Upper ==> reextended(ext, rule) == uppered(ext),
        rule.mode == ExtensionMode::Fixed && reextended(ext, rule).len() > 0 ==> reextended(
            ext,
            rule,
        )[0] != '.',
        rule.mode == ExtensionMode::Fixed && (rule.text@.len() > 0 ==> rule.text@[0] != '.')
            ==> reextended(ext, rule) == rule.text@,
        rule.mode == ExtensionMode::Extra && ext.len() > 0 && (rule.text@.len() > 0 ==> rule.text@[0]
            != '.') ==> reextended(ext, rule) == ext + seq!['.'] + rule.text@,
        rule.mode == ExtensionMode::Extra && ext.len() == 0 && (rule.text@.len() > 0
            ==> rule.text@[0] != '.') ==> reextended(ext, rule) == rule.text@,
{
    let k = lemma_dots_cut(rule.text@);
}

/// Whether every panel from `k` on is off, of those that only look at the name.
pub open spec fn off_from(rules: Rules, k: int) -> bool {
    &&& k <= 0 ==> rules.name.mode == NameMode::Keep
    &&& k <= 1 ==> rules.replace.find@.len() == 0
    &&& k <= 2 ==> rules.case.case == Case::Same
    &&& k <= 3 ==> rules.remove.is_off()
    &&& k <= 4 ==> rules.moves.mode == MoveMode::Off
    &&& k <= 5 ==> rules.add.prefix@.len() == 0 && rules.add.insert@.len() == 0
        && rules.add.suffix@.len() == 0 && !rules.add.word_space
}

/// Whether every panel before `k` is off, of those that only look at the name.
pub open spec fn off_before(rules: Rules, k: int) -> bool {
    &&& k > 0 ==> rules.name.mode == NameMode::Keep
    &&& k > 1 ==> rules.replace.find@.len() == 0
    &&& k > 2 ==> rules.case.case == Case::Same
    &&& k > 3 ==> rules.remove.is_off()
    &&& k > 4 ==> rules.moves.mode == MoveMode::Off
    &&& k > 5 ==> rules.add.prefix@.len() == 0 && rules.add.insert@.len() == 0
        && rules.add.suffix@.len() == 0 && !rules.add.word_space
}

/// Whether two sets of rules agree from `from` up to `to`, of the panels that
/// only look at the name.
pub open spec fn agree(a: Rules, b: Rules, from: int, to: int) -> bool {
    &&& from <= 0 < to ==> a.name == b.name
    &&& from <= 1 < to ==> a.replace == b.replace
    &&& from <= 2 < to ==> a.case == b.case
    &&& from <= 3 < to ==> a.remove == b.remove
    &&& from <= 4 < to ==> a.moves == b.moves
    &&& from <= 5 < to ==> a.add == b.add
}

/// The panels work one after another, each on the name that the one before it
/// left: the first of them and then the others do what they do together.
pub proof fn panels_work_one_after_another(
    stem: Seq<char>,
    all: Rules,
    first: Rules,
    rest: Rules,
    k: int,
)
    requires
        0 <= k <= 6,
        agree(all, first, 0, k),
        off_from(first, k),
        agree(all, rest, k, 6),
        off_before(rest, k),
    ensures
        reshaped(reshaped(stem, first), rest) == reshaped(stem, all),
{
    let s1 = renamed_stem(stem, all.name);
    let s2 = replaced_by(s1, all.replace);
    let s3 = recased(s2, all.case);
    let s4 = removed(s3, all.remove);
    let s5 = shifted(s4, all.moves);
    let s6 = added(s5, all.add);
    assert(reshaped(stem, all) == s6);
    let m = if k == 0 {
        stem
    } else if k == 1 {
        s1
    } else if k == 2 {
        s2
    } else if k == 3 {
        s3
    } else if k == 4 {
        s4
    } else if k == 5 {
        s5
    } else {
        s6
    };
    lemma_off_keeps(stem, first);
    lemma_off_keeps(s1, first);
    lemma_off_keeps(s2, first);
    lemma_off_keeps(s3, first);
    lemma_off_keeps(s4, first);
    lemma_off_keeps(s5, first);
    lemma_off_keeps(s6, first);
    assert(reshaped(stem, first) == m);
    lemma_off_keeps(m, rest);
    assert(reshaped(m, rest) == s6);
}

proof fn lemma_off_keeps(s: Seq<char>, rules: Rules)
    ensures
        rules.name.mode == NameMode::Keep ==> renamed_stem(s, rules.name) == s,
        rules.replace.find@.len() == 0 ==> replaced_by(s, rules.replace) == s,
        rules.case.case == Case::Same ==> recased(s, rules.case) == s,
        rules.remove.is_off() ==> removed(s, rules.remove) == s,
        rules.moves.mode == MoveMode::Off ==> shifted(s, rules.moves) == s,
        rules.add.prefix@.len() == 0 && rules.add.insert@.len() == 0 && rules.add.suffix@.len() == 0
            && !rules.add.word_space ==> added(s, rules.add) == s,
{
    assert(without_ends(s, 0, 0) =~= s);
    let words = rules.remove.words@;
    if words.len() == 0 {
        assert(trim_of(words).len() == 0);
    }
    if rules.add.prefix@.len() == 0 && rules.add.suffix@.len() == 0 {
        assert(rules.add.prefix@ + s + rules.add.suffix@ =~= s);
    }
}

/// A name is kept, taken away, replaced by the fixed one, or turned round:
/// turned round twice it is as it was.
pub proof fn a_name_is_kept_or_replaced(stem: Seq<char>, rule: NameRule)
    ensures
        rule.mode == NameMode::Keep ==> renamed_stem(stem, rule) == stem,
        rule.mode == NameMode::Remove ==> renamed_stem(stem, rule).len() == 0,
        rule.mode == NameMode::Fixed ==> renamed_stem(stem, rule) == rule.fixed@,
        rule.mode == NameMode::Reverse ==> renamed_stem(renamed_stem(stem, rule), rule) == stem
            && renamed_stem(stem, rule).len() == stem.len() && (stem.len() > 0 ==> renamed_stem(
            stem,
            rule,
        )[0] == stem.last()),
{
    assert(stem.reverse().reverse() =~= stem);
}

/// The case of a name is changed as asked, and a word that is an exception is
/// spelled as the exception is, whatever the case asked for.
pub proof fn exceptions_keep_their_spelling(stem: Seq<char>, rule: CaseRule, k: int)
    requires
        rule.case != Case::Same,
        ({
            let plain = case_of(stem, rule.case);
            let list = nonempty_of(split_of(rule.except@, seq![' ', ',']));
            plain.len() > 0 && all_pass(plain, |c: char| in_word(c)) && 0 <= k < list.len()
                && lowered(list[k]) == lowered(plain)
        }),
    ensures
        lowered(recased(stem, rule)) == lowered(case_of(stem, rule.case)),
        nonempty_of(split_of(rule.except@, seq![' ', ','])).contains(recased(stem, rule)),
{
    let plain = case_of(stem, rule.case);
    let list = nonempty_of(split_of(rule.except@, seq![' ', ',']));
    let change = WordChangeView::Spelled(list);
    let p = |c: char| in_word(c);
    assert forall|i: int| 0 <= i < plain.len() implies in_word(#[trigger] plain[i]) by {
        assert(p(plain[i]));
    }
    words_are_changed_one_by_one(plain, ' ', plain, change);
    exceptions_only_spell(plain, list);
}

/// Without exceptions a name has the case that was asked for.
pub proof fn a_name_has_the_case_asked_for(stem: Seq<char>, rule: CaseRule)
    requires
        rule.except@.len() == 0,
    ensures
        recased(stem, rule) == case_of(stem, rule.case),
{
    let parts = split_of(rule.except@, seq![' ', ',']);
    assert(parts.drop_last() =~= Seq::<Seq<char>>::empty());
    assert(parts.last().len() == 0);
    reveal_with_fuel(nonempty_of, 2);
}

/// A text in a case, before exceptions.
pub open spec fn case_of(stem: Seq<char>, case: Case) -> Seq<char> {
    match case {
        Case::Same => stem,
        Case::Lower => lowered(stem),
        Case::Upper => uppered(stem),
        Case::Title => words_of(Seq::empty(), stem, WordChangeView::Title),
        Case::Sentence => title_of(stem),
    }
}

/// A date comes from where it was asked for. Only a recording time can be
/// missing in favour of another, and only where that is allowed.
pub proof fn a_date_comes_from_its_source(file: Candidate, rule: DateRule, now: Moment)
    ensures
        rule.source == DateSource::Now ==> moment_for(file, rule, now) == Some(now),
        rule.source == DateSource::Modified ==> moment_for(file, rule, now) == file.modified,
        rule.source == DateSource::Created ==> moment_for(file, rule, now) == file.created,
        rule.source == DateSource::Recorded && file.recorded is Some ==> moment_for(file, rule, now)
            == file.recorded,
        rule.source == DateSource::Recorded && !rule.fallback ==> moment_for(file, rule, now)
            == file.recorded,
        rule.source == DateSource::Recorded && rule.fallback && file.recorded is None
            ==> moment_for(file, rule, now) == file.modified,
{
}

/// A date stands on its side of the name. A file without one is told so, and a
/// name that takes no date needs none.
pub proof fn a_date_stands_on_its_side(
    stem: Seq<char>,
    file: Candidate,
    rule: DateRule,
    now: Moment,
    date: Seq<char>,
)
    requires
        stem.len() > 0,
        date.len() > 0,
    ensures
        rule.side == Side::Off ==> dated(stem, file, rule, now) == Ok::<Seq<char>, ProblemView>(
            stem,
        ),
        rule.side != Side::Off ==> (dated(stem, file, rule, now) == Err::<Seq<char>, ProblemView>(
            ProblemView::NoDate,
        ) <==> moment_for(file, rule, now) is None),
        moment_for(file, rule, now) is Some && formatted(
            moment_for(file, rule, now)->0,
            rule.format@,
        ) == Some(date) ==> {
            &&& rule.side == Side::Prefix ==> dated(stem, file, rule, now) == Ok::<
                Seq<char>,
                ProblemView,
            >(date + rule.separator@ + stem)
            &&& rule.side == Side::Suffix ==> dated(stem, file, rule, now) == Ok::<
                Seq<char>,
                ProblemView,
            >(stem + rule.separator@ + date)
        },
{
}

/// The folders above a file are named from the outermost to its own: asking
/// for more adds those further out before the others, and the last is the one
/// the file is in.
pub proof fn folders_are_named_from_the_outermost(path: Seq<char>, levels: nat, windows: bool)
    ensures
        folders_of(path, levels, windows).len() <= levels,
        folders_of(path, levels + 1, windows).len() >= folders_of(path, levels, windows).len(),
        folders_of(path, levels + 1, windows).skip(
            folders_of(path, levels + 1, windows).len() - folders_of(path, levels, windows).len(),
        ) == folders_of(path, levels, windows),
        levels > 0 && parent_of(path, windows) is Some && file_name_of(
            parent_of(path, windows)->0,
        ).len() > 0 ==> folders_of(path, levels, windows).len() > 0 && folders_of(
            path,
            levels,
            windows,
        ).last() == file_name_of(parent_of(path, windows)->0),
    decreases levels,
{
    let (a, b) = (folders_of(path, levels, windows), folders_of(path, levels + 1, windows));
    if levels == 0 {
        assert(a =~= Seq::<Seq<char>>::empty());
        assert(b.skip(b.len() as int) =~= a);
    } else {
        match parent_of(path, windows) {
            None => {
                assert(b.skip(0) =~= a);
            },
            Some(dir) => {
                folders_are_named_from_the_outermost(dir, (levels - 1) as nat, windows);
                let (c, d) = (
                    folders_of(dir, (levels - 1) as nat, windows),
                    folders_of(dir, levels, windows),
                );
                let k = d.len() - c.len();
                if file_name_of(dir).len() > 0 {
                    assert(b.skip(k) =~= d.skip(k).push(file_name_of(dir)));
                }
            },
        }
    }
}

/// The folder that a file is in stands on its side of the name.
pub proof fn a_folder_stands_on_its_side(
    stem: Seq<char>,
    dir: Seq<char>,
    folder: Seq<char>,
    name: Seq<char>,
    rule: FolderRule,
)
    requires
        stem.len() > 0,
        dir.len() > 0,
        folder.len() > 0,
        !folder.contains('/'),
        !name.contains('/'),
        rule.levels <= 1,
    ensures
        ({
            let path = dir + seq!['/'] + folder + seq!['/'] + name;
            &&& rule.side == Side::Off ==> foldered(stem, path, rule, false) == stem
            &&& rule.side == Side::Prefix ==> foldered(stem, path, rule, false) == folder
                + rule.separator@ + stem
            &&& rule.side == Side::Suffix ==> foldered(stem, path, rule, false) == stem
                + rule.separator@ + folder
        }),
{
    let up = dir + seq!['/'] + folder;
    let path = up + seq!['/'] + name;
    a_path_parts_into_folder_and_name(up, name, name, false);
    a_path_parts_into_folder_and_name(dir, folder, folder, false);
    reveal_with_fuel(folders_of, 2);
    assert(folders_of(path, 1, false) =~= seq![folder]);
    assert(joined(seq![folder], rule.separator@) == folder);
}

/// A name takes its date, its folders, its number and its extension in this
/// order, from the name out.
pub proof fn what_joins_a_name_joins_in_order(
    file: Candidate,
    rules: Rules,
    now: Moment,
    windows: bool,
    counter: CounterView,
    date: Seq<char>,
)
    requires
        rules.date.side == Side::Suffix,
        rules.folder.side == Side::Suffix,
        rules.folder.levels == 1,
        rules.numbering.place == NumberPlace::Suffix,
        moment_for(file, rules.date, now) is Some,
        formatted(moment_for(file, rules.date, now)->0, rules.date.format@) == Some(date),
        date.len() > 0,
        parent_of(file.path@, windows) is Some,
        file_name_of(parent_of(file.path@, windows)->0).len() > 0,
    ensures
        ({
            let (stem, ext) = parted(file_name_of(file.path@), rules.regex);
            let made = reshaped(stem, rules);
            let folder = file_name_of(parent_of(file.path@, windows)->0);
            let ext = reextended(ext, rules.extension);
            let named = made + rules.date.separator@ + date + rules.folder.separator@ + folder;
            let number = number_text_of(
                counter.number(named, parent_of(file.path@, windows)),
                rules.numbering,
            );
            made.len() > 0 && number.len() > 0 && ext.len() > 0 ==> new_name_of(
                file,
                rules,
                now,
                windows,
                counter,
            ).0 == Ok::<Seq<char>, ProblemView>(
                named + rules.numbering.separator@ + number + seq!['.'] + ext,
            )
        }),
{
    reveal(unnumbered_of);
    let (stem, ext) = parted(file_name_of(file.path@), rules.regex);
    let made = reshaped(stem, rules);
    let dir = parent_of(file.path@, windows)->0;
    let folder = file_name_of(dir);
    reveal_with_fuel(folders_of, 2);
    let folders = folders_of(file.path@, 1, windows);
    assert(folders =~= seq![folder]);
    assert(joined(folders, rules.folder.separator@) == folder);
    if made.len() > 0 {
        let d = made + rules.date.separator@ + date;
        assert(dated(made, file, rules.date, now) == Ok::<Seq<char>, ProblemView>(d));
        let named = d + rules.folder.separator@ + folder;
        assert(foldered(d, file.path@, rules.folder, windows) == named);
        assert(unnumbered_of(file, rules, now, windows) == Ok::<
            (Seq<char>, Seq<char>),
            ProblemView,
        >((named, reextended(ext, rules.extension))));
    }
}

/// Names that do not clash go through as they were planned.
pub proof fn names_apart_go_through(
    plan: Seq<Option<PlannedView>>,
    taken: Seq<Seq<char>>,
    i: int,
    p: PlannedView,
)
    requires
        0 <= i < plan.len(),
        plan[i] == Some(p),
        p.problem is None,
        !taken.contains(p.to),
        forall|j: int|
            0 <= j < plan.len() && j != i ==> ((#[trigger] plan[j]) matches Some(q) ==> lowered(
                q.to,
            ) != lowered(p.to)),
    ensures
        settled(plan, taken)[i] == Some(p),
{
    lemma_counted_once(plan, lowered(p.to), i);
}

proof fn lemma_counted_once(plan: Seq<Option<PlannedView>>, key: Seq<char>, i: int)
    requires
        forall|j: int|
            0 <= j < plan.len() && j != i ==> ((#[trigger] plan[j]) matches Some(q) ==> lowered(
                q.to,
            ) != key),
    ensures
        count_to(plan, key) <= 1,
        !(0 <= i < plan.len()) ==> count_to(plan, key) == 0,
    decreases plan.len(),
{
    if plan.len() > 0 {
        let rest = plan.drop_last();
        assert forall|j: int| 0 <= j < rest.len() && j != i implies ((#[trigger] rest[j]) matches Some(
            q,
        ) ==> lowered(q.to) != key) by {
            assert(rest[j] == plan[j]);
        }
        lemma_counted_once(rest, key, i);
        assert(plan.last() == plan[plan.len() - 1]);
    }
}

/// A file that stays where it is stands in the way of a name, and one that is
/// renamed away does not.
pub proof fn a_name_in_use_stands_in_the_way(
    plan: Seq<Option<PlannedView>>,
    taken: Seq<Seq<char>>,
    i: int,
    p: PlannedView,
)
    requires
        0 <= i < plan.len(),
        plan[i] == Some(p),
        p.problem is None,
        p.from != p.to,
        lowered(p.from) != lowered(p.to),
        taken.contains(p.to),
    ensures
        (forall|j: int|
            0 <= j < plan.len() ==> ((#[trigger] plan[j]) matches Some(q) ==> lowered(q.from)
                != lowered(p.to))) ==> settled(plan, taken)[i]->0.problem is Some,
        (exists|j: int|
            0 <= j < plan.len() && ((#[trigger] plan[j]) matches Some(q) && q.problem is None
                && q.from != q.to && lowered(q.from) == lowered(p.to))) && count_to(
            plan,
            lowered(p.to),
        ) <= 1 ==> settled(plan, taken)[i] == Some(p),
{
}

/// A draft has a line for each file that was chosen, in the order of the
/// files, which stays in its folder.
pub proof fn a_draft_plans_each_chosen_file(
    files: Seq<Candidate>,
    chosen: Seq<bool>,
    rules: Rules,
    now: Moment,
    windows: bool,
)
    requires
        files.len() == chosen.len(),
    ensures
        ({
            let plan = draft_of(files, chosen, rules, now, windows);
            &&& plan.len() == files.len()
            &&& forall|i: int| 0 <= i < files.len() ==> #[trigger] planned_for(files, chosen, plan, i)
        }),
{
    if compile_of(rules.regex) is None {
        lemma_drafted(files, chosen, rules, now, windows, files.len());
    }
}

/// Whether a plan has a line for a file where it was chosen, which leads to
/// another name in the same folder unless there is a problem with it.
pub open spec fn planned_for(
    files: Seq<Candidate>,
    chosen: Seq<bool>,
    plan: Seq<Option<PlannedView>>,
    i: int,
) -> bool {
    &&& plan[i] is Some <==> chosen[i]
    &&& plan[i] matches Some(p) ==> {
        &&& p.from == files[i].path@
        &&& p.problem is None ==> last_of(p.to, '/') == last_of(p.from, '/') && p.to.take(
            last_of(p.to, '/') + 1,
        ) == p.from.take(last_of(p.from, '/') + 1)
    }
}

proof fn lemma_drafted(
    files: Seq<Candidate>,
    chosen: Seq<bool>,
    rules: Rules,
    now: Moment,
    windows: bool,
    n: nat,
)
    requires
        n <= files.len(),
        files.len() == chosen.len(),
    ensures
        draft_upto(files, chosen, rules, now, windows, n).0.len() == n,
        forall|i: int|
            0 <= i < n ==> #[trigger] planned_for(
                files,
                chosen,
                draft_upto(files, chosen, rules, now, windows, n).0,
                i,
            ),
    decreases n,
{
    if n > 0 {
        let k = (n - 1) as nat;
        lemma_drafted(files, chosen, rules, now, windows, k);
        let (before, counter) = draft_upto(files, chosen, rules, now, windows, k);
        let plan = draft_upto(files, chosen, rules, now, windows, n).0;
        assert forall|i: int| 0 <= i < n implies planned_for(files, chosen, plan, i) by {
            if i < k {
                assert(plan[i] == before[i]);
                assert(planned_for(files, chosen, before, i));
            } else if chosen[i] {
                let (p, next) = draft_one(files[i], rules, now, windows, counter);
                assert(plan[i] == Some(p));
                match new_name_of(files[i], rules, now, windows, counter).0 {
                    Ok(name) => {
                        if p.problem is None {
                            lemma_valid_has_no_slash(name, windows);
                            renaming_stays_in_the_folder(p.from, name);
                            let at = last_of(p.from, '/');
                            lemma_last_before(p.from, '/', p.from.len() as int);
                            if name.len() > 0 {
                                assert(name.contains(name[0]));
                            }
                            assert(p.to.take(at + 1) =~= p.from.take(at + 1));
                        }
                    },
                    Err(_) => {},
                }
            }
        }
    }
}

proof fn lemma_valid_has_no_slash(name: Seq<char>, windows: bool)
    requires
        invalid_of(name, windows) is None,
    ensures
        !name.contains('/'),
{
    if name.contains('/') {
        let i = choose|i: int| 0 <= i < name.len() && name[i] == '/';
        lemma_reserved('/', windows);
        assert(reserved_of(windows).contains(name[i]) || control(name[i]));
    }
}

/// A file is listed for renaming where it has the sound asked for and its name
/// matches one of the masks, which stand between semicolons; blank masks match
/// nothing.
pub proof fn a_file_is_listed_by_a_mask(filters: Filters, path: Seq<char>, mask: Seq<char>)
    requires
        filters.match_case,
        !mask.contains(';'),
        tidy(mask),
        filters.mask@ == mask,
    ensures
        filters.lets_through(path) <==> (filters.audio_only ==> is_audio_path(path)) && mask.len()
            > 0 && matches_mask(mask, file_name_of(path)),
{
    let seps = seq![';'];
    assert forall|i: int| 0 <= i < mask.len() implies !seps.contains(#[trigger] mask[i]) by {
        assert(mask.contains(mask[i]));
        if seps.contains(mask[i]) {
            let k = choose|k: int| 0 <= k < seps.len() && seps[k] == mask[i];
        }
    }
    a_text_splits_at_its_separators(mask, ';', mask, seps);
    let none = Seq::<char>::empty();
    trimming_cuts_only_white_space(none, mask, none);
    assert(none + mask + none =~= mask);
    let parts = split_of(mask, seps);
    assert(parts =~= seq![mask]);
    assert(parts[0] == mask);
}

/// More masks list more files: what one of two lists is listed by both.
pub proof fn any_mask_lists_a_file(a: Seq<char>, b: Seq<char>, name: Seq<char>, match_case: bool)
    ensures
        some_mask(split_of(a + seq![';'] + b, seq![';']), name, match_case) <==> some_mask(
            split_of(a, seq![';']),
            name,
            match_case,
        ) || some_mask(split_of(b, seq![';']), name, match_case),
{
    let seps = seq![';'];
    assert(seps[0] == ';');
    assert(seps.contains(seps[0]));
    a_text_splits_at_its_separators(a, ';', b, seps);
    let (x, y) = (split_of(a, seps), split_of(b, seps));
    let all = x + y;
    if some_mask(all, name, match_case) {
        let i = choose|i: int|
            0 <= i < all.len() && trim_of(#[trigger] all[i]).len() > 0 && matches_mask(
                folded(trim_of(all[i]), match_case),
                folded(name, match_case),
            );
        if i < x.len() {
            assert(x[i] == all[i]);
        } else {
            assert(y[i - x.len()] == all[i]);
        }
    }
    if some_mask(x, name, match_case) {
        let i = choose|i: int|
            0 <= i < x.len() && trim_of(#[trigger] x[i]).len() > 0 && matches_mask(
                folded(trim_of(x[i]), match_case),
                folded(name, match_case),
            );
        assert(all[i] == x[i]);
    }
    if some_mask(y, name, match_case) {
        let i = choose|i: int|
            0 <= i < y.len() && trim_of(#[trigger] y[i]).len() > 0 && matches_mask(
                folded(trim_of(y[i]), match_case),
                folded(name, match_case),
            );
        assert(all[x.len() + i] == y[i]);
    }
}

/// A search for files skips what is hidden, goes into folders only where that
/// is asked for, and takes no file that is not let through.
pub proof fn a_search_takes_what_is_let_through(filters: Filters, path: Seq<char>, kind: Kind)
    ensures
        ({
            let name = file_name_of(path);
            let hidden = name.len() > 0 && name[0] == '.';
            &&& filters.treats(path, kind) == Treatment::Enter <==> !hidden && kind == Kind::Folder
                && filters.subfolders
            &&& filters.treats(path, kind) == Treatment::Take <==> !hidden && kind == Kind::File
                && filters.lets_through(path)
            &&& hidden ==> filters.treats(path, kind) == Treatment::Skip
        }),
{
}

/// Numbers start over where a name differs from the one before in the
/// characters that are watched, and not where it differs only behind them.
pub proof fn numbers_start_over_with_the_watched_characters(
    rule: NumberRule,
    a: Seq<char>,
    x: Seq<char>,
    y: Seq<char>,
    c: char,
    d: char,
    folder: Option<Seq<char>>,
)
    requires
        rule.restart_after > 0,
        !rule.per_folder,
        c != d,
    ensures
        a.len() >= rule.restart_after ==> !restarts(rule, seq![a + x, a + y], seq![folder, folder], 1),
        a.len() < rule.restart_after ==> restarts(
            rule,
            seq![a + seq![c] + x, a + seq![d] + y],
            seq![folder, folder],
            1,
        ),
{
    let n = rule.restart_after as int;
    let watch = counter_start(rule);
    if a.len() >= n {
        assert((a + x).take(n) =~= a.take(n));
        assert((a + y).take(n) =~= a.take(n));
        let (s, t) = (a + x, a + y);
        assert(watch.head(s) =~= a.take(n)) by {
            if s.len() == n {
                assert(s.take(n) =~= s);
            }
        }
        assert(watch.head(t) =~= a.take(n)) by {
            if t.len() == n {
                assert(t.take(n) =~= t);
            }
        }
    } else {
        let (s, t) = (a + seq![c] + x, a + seq![d] + y);
        let k = a.len() as int;
        assert(s[k] == c && t[k] == d);
        assert(watch.head(s)[k] == c);
        assert(watch.head(t)[k] == d);
    }
}

/// Letters lose their accents one by one: a name has as many characters as
/// before, each the letter without its accent.
pub proof fn accents_are_lost_letter_by_letter(stem: Seq<char>, rule: RemoveRule, i: int)
    requires
        rule.accents,
        rule.first == 0 && rule.last == 0 && rule.from == 0,
        rule.chars@.len() == 0,
        trim_of(rule.words@).len() == 0,
        rule.crop == Crop::Off,
        !rule.digits && !rule.symbols && !rule.high && !rule.trim && !rule.double_spaces
            && !rule.lead_dots,
        0 <= i < stem.len(),
    ensures
        removed(stem, rule).len() == stem.len(),
        removed(stem, rule)[i] == unaccented_of(stem[i]),
{
    assert(without_ends(stem, 0, 0) =~= stem);
}

proof fn lemma_nonempty(a: Seq<Seq<char>>, b: Seq<Seq<char>>)
    ensures
        nonempty_of(a + b) == nonempty_of(a) + nonempty_of(b),
    decreases b.len(),
{
    if b.len() == 0 {
        assert(a + b =~= a);
        assert(nonempty_of(a) + nonempty_of(b) =~= nonempty_of(a));
    } else {
        lemma_nonempty(a, b.drop_last());
        assert((a + b).drop_last() =~= a + b.drop_last());
        assert((a + b).last() == b.last());
        assert(nonempty_of(a + b) =~= nonempty_of(a) + nonempty_of(b));
    }
}

proof fn lemma_one_word_listed(w: Seq<char>)
    requires
        all_pass(w, |c: char| !white(c)),
        w.len() > 0,
    ensures
        split_of(blanked(w), seq![' ']) == seq![w],
        nonempty_of(seq![w]) == seq![w],
{
    let p = |c: char| !white(c);
    let seps = seq![' '];
    assert forall|i: int| 0 <= i < w.len() implies !seps.contains(#[trigger] w[i]) && !white(w[i]) by {
        assert(p(w[i]));
        if seps.contains(w[i]) {
            let k = choose|k: int| 0 <= k < seps.len() && seps[k] == w[i];
        }
    }
    assert(blanked(w) =~= w);
    a_text_splits_at_its_separators(w, ' ', w, seps);
    let one = seq![w];
    assert(one.drop_last() =~= Seq::<Seq<char>>::empty());
    assert(nonempty_of(one.drop_last()) =~= Seq::<Seq<char>>::empty());
    assert(nonempty_of(one) =~= one);
}

/// Words that are to go stand between white space, and each goes wherever it is
/// a word of the name, whatever its case.
pub proof fn listed_words_go(a: Seq<char>, space: char, b: Seq<char>, word: Seq<char>)
    requires
        all_pass(a, |c: char| !white(c)),
        all_pass(b, |c: char| !white(c)),
        a.len() > 0,
        b.len() > 0,
        white(space),
        word.len() > 0,
        all_pass(word, |c: char| in_word(c)),
    ensures
        white_words_of(a + seq![space] + b) == seq![a, b],
        ({
            let list = a + seq![space] + b;
            let gone = lowered(word) == lowered(a) || lowered(word) == lowered(b);
            &&& gone ==> without_words(word, list).len() == 0
            &&& !gone ==> without_words(word, list) == word
        }),
{
    let seps = seq![' '];
    let list = a + seq![space] + b;
    lemma_one_word_listed(a);
    lemma_one_word_listed(b);
    assert(seps[0] == ' ');
    assert(seps.contains(seps[0]));
    assert(blanked(list) =~= blanked(a) + seq![' '] + blanked(b));
    a_text_splits_at_its_separators(blanked(a), ' ', blanked(b), seps);
    lemma_nonempty(seq![a], seq![b]);
    assert(seq![a] + seq![b] =~= seq![a, b]);
    assert(white_words_of(list) =~= seq![a, b]);
    let p = |c: char| in_word(c);
    assert forall|i: int| 0 <= i < word.len() implies in_word(#[trigger] word[i]) by {
        assert(p(word[i]));
    }
    let dropped = dropped_words(list);
    assert(dropped =~= seq![lowered(a), lowered(b)]);
    assert(dropped[0] == lowered(a) && dropped[1] == lowered(b));
    words_are_changed_one_by_one(word, ' ', word, WordChangeView::Dropped(dropped));
    only_listed_words_are_dropped(word, dropped);
    let q = |c: char| !white(c);
    assert(q(a[0]));
    assert(trim_of(list).len() > 0) by {
        let (x, y) = only_the_ends_are_trimmed(list);
        if trim_of(list).len() == 0 {
            assert(list =~= x + y);
            assert(list[0] == a[0]);
            if x.len() > 0 {
                assert(white(x[0]));
                assert(list[0] == x[0]);
            } else {
                assert(white(y[0]));
                assert(list[0] == y[0]);
            }
        }
    }
}

/// Text that is replaced with its case matched is replaced as it stands, and
/// nothing is where nothing is searched for.
pub proof fn a_matched_case_is_replaced_as_it_stands(
    x: Seq<char>,
    y: Seq<char>,
    rule: ReplaceRule,
)
    requires
        rule.match_case,
    ensures
        rule.find@.len() == 0 ==> replaced_by(x, rule) == x,
        rule.find@.len() > 0 && (forall|at: int|
            0 <= at < x.len() ==> !#[trigger] stands_at(x + rule.find@ + y, rule.find@, at))
            ==> replaced_by(x + rule.find@ + y, rule) == x + rule.with@ + replaced_by(y, rule),
        (forall|at: int| !#[trigger] stands_at(x, rule.find@, at)) ==> replaced_by(x, rule) == x,
{
    what_is_not_found_is_not_replaced(x, rule.find@, rule.with@);
    if rule.find@.len() > 0 && (forall|at: int|
        0 <= at < x.len() ==> !#[trigger] stands_at(x + rule.find@ + y, rule.find@, at)) {
        the_first_find_is_replaced(x, rule.find@, y, rule.with@);
    }
}

/// A regular expression changes the stem, or the whole name where the extension
/// is searched too, and without one the name parts as it is.
pub proof fn a_pattern_changes_the_stem(stem: Seq<char>, ext: Seq<char>, rule: RegexRule)
    requires
        stem.len() > 0,
        ext.len() > 0,
        forall|i: int| 0 <= i < ext.len() ==> #[trigger] ext[i] != '.',
    ensures
        ({
            let name = stem + seq!['.'] + ext;
            let with = groups_of(rule.replace@);
            &&& rule.find@.len() == 0 ==> parted(name, rule) == (stem, ext)
            &&& rule.find@.len() > 0 && !rule.extension ==> parted(name, rule).1 == ext && (
            regex_replaced(rule.find@, stem, with) matches Some(s) ==> parted(name, rule).0 == s) && (
            regex_replaced(rule.find@, stem, with) is None ==> parted(name, rule).0 == stem)
            &&& rule.find@.len() > 0 && rule.extension ==> (regex_replaced(
                rule.find@,
                name,
                with,
            ) matches Some(s) ==> parted(name, rule) == split_name(s))
        }),
{
    a_name_parts_at_its_last_dot(stem, ext);
}

} // verus!
