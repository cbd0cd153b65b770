//! What is read out of the texts that recorders write.

use crate::document::{
    lemma_closing, lemma_named_tag, lemma_tagged_reads, lemma_text_read, unquoted,
};
use crate::edit::field_text;
use crate::meta::{
    between_tags, cdata_end, cdata_start, date_of, description_of, escape_of, escaped_char,
    find_of, first_human, human_info, human_lines, human_of, info_name_of, info_with, machine_key, machine_line, meta_of,
    reference_of, unescape_of, xml_text_of, ICMT, INAM, INFO_FIELDS, ISBJ,
};
use crate::numerals::{a_written_number_is_read, digits_read_as_their_number};
use crate::panels::stands_at;
use crate::rename::is_char;
use crate::text::{
    a_text_splits_at_its_separators, digit, digits_of, joined, parsed, split_of, tidy, trim_of,
    trimming_cuts_only_white_space, white,
};
use crate::wav::{first_index, lemma_first_index, text_of, WavView};
use crate::xml::{
    content_at, element_at, name_end, stands, step_at, tag_end, Node, Span, Step,
};
use vstd::prelude::*;

verus! {

proof fn lemma_human_lines(a: Seq<Seq<char>>, b: Seq<Seq<char>>)
    ensures
        human_lines(a + b) == human_lines(a) + human_lines(b),
    decreases b.len(),
{
    if b.len() == 0 {
        assert(a + b =~= a);
        assert(human_lines(a) + human_lines(b) =~= human_lines(a));
    } else {
        lemma_human_lines(a, b.drop_last());
        assert((a + b).drop_last() =~= a + b.drop_last());
        assert((a + b).last() == b.last());
        assert(human_lines(a + b) =~= human_lines(a) + human_lines(b));
    }
}

/// Whether a text has no line end in it.
pub open spec fn one_line(s: Seq<char>) -> bool {
    !s.contains('\n') && !s.contains('\r')
}

proof fn lemma_one_line(s: Seq<char>)
    requires
        one_line(s),
    ensures
        split_of(s, seq!['\r', '\n']) == seq![s],
        human_lines(seq![s]) == if trim_of(s).len() == 0 || machine_line(trim_of(s)) {
            Seq::empty()
        } else {
            seq![trim_of(s)]
        },
{
    let ends = seq!['\r', '\n'];
    assert forall|i: int| 0 <= i < s.len() implies !ends.contains(#[trigger] s[i]) by {
        assert(s.contains(s[i]));
        if ends.contains(s[i]) {
            let k = choose|k: int| 0 <= k < 2 && ends[k] == s[i];
        }
    }
    a_text_splits_at_its_separators(s, '\n', s, ends);
    let one = seq![s];
    assert(one.drop_last() =~= Seq::<Seq<char>>::empty());
    assert(human_lines(one.drop_last()) =~= Seq::<Seq<char>>::empty());
}

/// A line for people is shown as it is, less the white space around it. Lines
/// for machines and empty ones are left out, and what is left of several lines
/// is joined into one.
pub proof fn lines_for_people_are_shown(a: Seq<char>, b: Seq<char>)
    requires
        one_line(a),
        one_line(b),
    ensures
        ({
            let both = a + seq!['\n'] + b;
            let (x, y) = (trim_of(a), trim_of(b));
            let (shows_a, shows_b) = (
                x.len() > 0 && !machine_line(x),
                y.len() > 0 && !machine_line(y),
            );
            &&& human_of(a) == if shows_a {
                Some(x)
            } else {
                None
            }
            &&& shows_a && shows_b ==> human_of(both) == Some(x + seq![' '] + y)
            &&& shows_a && !shows_b ==> human_of(both) == Some(x)
            &&& !shows_a && shows_b ==> human_of(both) == Some(y)
            &&& !shows_a && !shows_b ==> human_of(both) is None
        }),
{
    let ends = seq!['\r', '\n'];
    assert(ends[1] == '\n');
    assert(ends.contains(ends[1]));
    lemma_one_line(a);
    lemma_one_line(b);
    a_text_splits_at_its_separators(a, '\n', b, ends);
    lemma_human_lines(seq![a], seq![b]);
    let (x, y) = (trim_of(a), trim_of(b));
    let kept = human_lines(seq![a]) + human_lines(seq![b]);
    let none = Seq::<Seq<char>>::empty();
    assert(none + seq![y] =~= seq![y]);
    assert(seq![x] + none =~= seq![x]);
    assert(none + none =~= none);
    assert(seq![x] + seq![y] =~= seq![x, y]);
    assert(joined(seq![x], seq![' ']) == x);
    assert(joined(seq![y], seq![' ']) == y);
    let two = seq![x, y];
    assert(two.drop_last() =~= seq![x]);
    assert(joined(two, seq![' ']) == x + seq![' '] + y);
}

/// A line for machines is a key, which is a small letter and capitals, digits
/// or underscores, and a value behind an equals sign.
pub proof fn machines_write_keys_and_values(key: Seq<char>, value: Seq<char>)
    requires
        !key.contains('='),
    ensures
        machine_line(key + seq!['='] + value) == machine_key(key),
        !machine_line(key),
        machine_key(key) ==> 2 <= key.len() <= 16,
{
    let line = key + seq!['='] + value;
    let k = key.len() as int;
    lemma_first_index(line, is_char('='), 0);
    let at = first_index(line, is_char('='), 0);
    assert(line[k] == '=');
    if at < k {
        assert(line[at] == key[at]);
        assert(key.contains(key[at]));
    } else if at > k {
        assert(!is_char('=')(line[k]));
    }
    assert(at == k);
    assert(line.take(k) =~= key);
    lemma_first_index(key, is_char('='), 0);
    let none = first_index(key, is_char('='), 0);
    if none < key.len() {
        assert(key.contains(key[none]));
    }
}

proof fn lemma_found_first(s: Seq<char>, pattern: Seq<char>, from: int, at: int)
    requires
        0 <= from <= at,
        stands_at(s, pattern, at),
        forall|k: int| from <= k < at ==> !#[trigger] stands_at(s, pattern, k),
    ensures
        find_of(s, pattern, from) == at,
    decreases at - from,
{
    if from < at {
        assert(!stands_at(s, pattern, from));
        lemma_found_first(s, pattern, from + 1, at);
    }
}

/// What stands between the first pair of a tag is its text: taken from the
/// first that opens it up to the first that closes it behind that.
pub proof fn a_tag_holds_what_stands_in_it(
    before: Seq<char>,
    tag: Seq<char>,
    text: Seq<char>,
    after: Seq<char>,
)
    requires
        ({
            let open = seq!['<'] + tag + seq!['>'];
            let close = seq!['<', '/'] + tag + seq!['>'];
            let xml = before + open + text + close + after;
            &&& forall|k: int| 0 <= k < before.len() ==> !#[trigger] stands_at(xml, open, k)
            &&& forall|k: int|
                before.len() + open.len() <= k < before.len() + open.len() + text.len()
                    ==> !#[trigger] stands_at(xml, close, k)
        }),
    ensures
        ({
            let open = seq!['<'] + tag + seq!['>'];
            let close = seq!['<', '/'] + tag + seq!['>'];
            between_tags(before + open + text + close + after, tag) == Some(text)
        }),
{
    let open = seq!['<'] + tag + seq!['>'];
    let close = seq!['<', '/'] + tag + seq!['>'];
    let xml = before + open + text + close + after;
    let a = before.len() as int;
    let b = a + open.len();
    let c = b + text.len();
    assert(xml.subrange(a, a + open.len()) =~= open);
    assert(xml.subrange(c, c + close.len()) =~= close);
    lemma_found_first(xml, open, 0, a);
    lemma_found_first(xml, close, b, c);
    assert(xml.subrange(b, c) =~= text);
}

/// A section of plain characters reads as it stands.
pub proof fn a_section_reads_as_it_stands(text: Seq<char>, rest: Seq<char>)
    requires
        forall|k: int|
            9 <= k < 9 + text.len() ==> !#[trigger] stands_at(
                cdata_start() + text + cdata_end() + rest,
                cdata_end(),
                k,
            ),
    ensures
        unescape_of(cdata_start() + text + cdata_end() + rest) == text + unescape_of(rest),
{
    let s = cdata_start() + text + cdata_end() + rest;
    let at = 9 + text.len() as int;
    assert(s.take(9) =~= cdata_start());
    assert(s.subrange(at, at + 3) =~= cdata_end());
    lemma_found_first(s, cdata_end(), 9, at);
    assert(s.subrange(9, at) =~= text);
    assert(s.skip(at + 3) =~= rest);
}

/// A character that is called by its number reads as that character.
pub proof fn a_numbered_character_reads_as_itself(c: char, rest: Seq<char>)
    ensures
        unescape_of(seq!['&', '#'] + digits_of(c as nat) + seq![';'] + rest) == seq![c]
            + unescape_of(rest),
{
    let d = digits_of(c as nat);
    let s = seq!['&', '#'] + d + seq![';'] + rest;
    digits_read_as_their_number(c as nat);
    a_written_number_is_read(c as nat, u32::MAX as nat);
    let k = 2 + d.len() as int;
    assert(s[k] == ';');
    lemma_first_index(s, is_char(';'), 1);
    let at = first_index(s, is_char(';'), 1);
    if at < k {
        if at >= 2 {
            assert(s[at] == d[at - 2]);
            assert(digit(d[at - 2]));
        } else {
            assert(s[1] == '#');
        }
    } else if at > k {
        assert(!is_char(';')(s[k]));
    }
    assert(at == k);
    let name = s.subrange(1, k);
    assert(name =~= seq!['#'] + d);
    assert(name[0] == '#');
    assert(name.skip(1) =~= d);
    assert(digit(d[0]));
    if name.len() > 1 {
        assert(name[1] == d[0]);
    }
    assert(reference_of(name) == Some(c));
    assert(s.skip(k + 1) =~= rest);
    if s.len() >= 9 {
        assert(s.take(9)[0] == '&');
        assert(cdata_start()[0] == '<');
    }
    assert(s[0] == '&');
}

/// Escaped text holds no sign that a document gives a meaning, and text that
/// has none of them is not changed.
pub proof fn escaped_text_has_no_signs(s: Seq<char>)
    ensures
        forall|i: int|
            0 <= i < escape_of(s).len() ==> #[trigger] escape_of(s)[i] != '<' && escape_of(s)[i]
                != '>',
        (forall|i: int| 0 <= i < s.len() ==> #[trigger] s[i] != '<' && s[i] != '>' && s[i] != '&')
            ==> escape_of(s) == s,
    decreases s.len(),
{
    if s.len() > 0 {
        let rest = s.skip(1);
        escaped_text_has_no_signs(rest);
        let first = escaped_char(s[0]);
        let t = escape_of(s);
        assert forall|i: int| 0 <= i < t.len() implies #[trigger] t[i] != '<' && t[i] != '>' by {
            if i < first.len() {
                assert(t[i] == first[i]);
            } else {
                assert(t[i] == escape_of(rest)[i - first.len()]);
            }
        }
        if forall|i: int| 0 <= i < s.len() ==> #[trigger] s[i] != '<' && s[i] != '>' && s[i] != '&' {
            assert forall|i: int| 0 <= i < rest.len() implies #[trigger] rest[i] != '<' && rest[i]
                != '>' && rest[i] != '&' by {
                assert(rest[i] == s[i + 1]);
            }
            assert(s[0] != '<');
            assert(t =~= s);
        }
    }
}

/// An element reads as its name and the text that was written between its
/// tags, wherever in a document it stands.
pub proof fn an_element_reads_as_its_text(
    before: Seq<char>,
    name: Seq<char>,
    value: Seq<char>,
    after: Seq<char>,
)
    requires
        name.len() > 0,
        unquoted(name),
        forall|x: int|
            0 <= x < name.len() ==> !white(#[trigger] name[x]) && name[x] != '/' && name[x] != '>',
    ensures
        ({
            let element = seq!['<'] + name + seq!['>'] + escape_of(value) + seq!['<', '/'] + name
                + seq!['>'];
            element_at(before + element + after, before.len() as int) matches Some((node, end))
                && node.name == name && node.text == value && node.children.len() == 0 && end
                == before.len() + element.len()
        }),
{
    let element = field_text(Span::Empty { start: 0, end: 0 }, name, value);
    assert(element =~= seq!['<'] + name + seq!['>'] + escape_of(value) + seq!['<', '/'] + name
        + seq!['>']);
    let t = before + element + after;
    let i = before.len() as int;
    assert(t.subrange(i, i + element.len()) =~= element);
    lemma_tagged_reads(t, i, name, value);
}

/// A recording is described by the note in its document, or else by its
/// Broadcast WAV description, or else by the first of its comment, its subject
/// and its title, whichever is the first that says something to people.
pub proof fn the_first_description_counts(w: WavView)
    ensures
        ({
            let note = match w.ixml {
                Some(x) => xml_text_of(x, "NOTE"@),
                None => None,
            };
            let broadcast = match w.bext {
                Some(b) => human_of(b.description),
                None => None,
            };
            &&& note is Some ==> meta_of(w).description == note
            &&& note is None && broadcast is Some ==> meta_of(w).description == broadcast
            &&& note is None && broadcast is None ==> {
                let (comment, subject, title) = (
                    human_info(w, ICMT@),
                    human_info(w, ISBJ@),
                    human_info(w, INAM@),
                );
                &&& comment is Some ==> meta_of(w).description == comment
                &&& comment is None && subject is Some ==> meta_of(w).description == subject
                &&& comment is None && subject is None ==> meta_of(w).description == title
            }
        }),
        meta_of(w).recorder is Some <==> w.bext is Some && (w.bext->0).originator.len() > 0,
        meta_of(w).recorder matches Some(r) ==> r == (w.bext->0).originator,
{
    reveal_strlit("NOTE");
    assert("NOTE"@ =~= seq!['N', 'O', 'T', 'E']);
}

/// An entry is found by its id, and of two with one id the first.
pub proof fn the_first_entry_of_an_id_counts(
    before: Seq<(Seq<u8>, Seq<char>)>,
    id: Seq<u8>,
    text: Seq<char>,
    after: Seq<(Seq<u8>, Seq<char>)>,
)
    requires
        forall|i: int| 0 <= i < before.len() ==> (#[trigger] before[i]).0 != id,
    ensures
        info_with(before + seq![(id, text)] + after, id) == Some(text),
        info_with(before, id) is None,
{
    let all = before + seq![(id, text)] + after;
    let k = before.len() as int;
    assert(all[k] == (id, text));
    assert forall|i: int| 0 <= i < k implies #[trigger] all[i] == before[i] by {}
    lemma_any_first_index(all);
    lemma_any_first_index(before);
}

proof fn lemma_any_first_index(s: Seq<(Seq<u8>, Seq<char>)>)
    ensures
        forall|p: spec_fn((Seq<u8>, Seq<char>)) -> bool| #[trigger]
            first_index(s, p, 0) <= s.len() && 0 <= first_index(s, p, 0) && (first_index(s, p, 0)
                < s.len() ==> p(s[first_index(s, p, 0)])) && forall|j: int|
                0 <= j < first_index(s, p, 0) ==> !p(#[trigger] s[j]),
{
    assert forall|p: spec_fn((Seq<u8>, Seq<char>)) -> bool| #[trigger]
        first_index(s, p, 0) <= s.len() && 0 <= first_index(s, p, 0) && (first_index(s, p, 0)
            < s.len() ==> p(s[first_index(s, p, 0)])) && forall|j: int|
            0 <= j < first_index(s, p, 0) ==> !p(#[trigger] s[j]) by {
        lemma_first_index(s, p, 0);
    }
}

proof fn lemma_info_names(id: Seq<u8>, k: int)
    requires
        0 <= k <= INFO_FIELDS@.len(),
        forall|j: int| k <= j < INFO_FIELDS@.len() ==> INFO_FIELDS@[j].0@ != id,
    ensures
        info_name_of(id, k) == text_of(id),
    decreases INFO_FIELDS@.len() - k,
{
    if k < INFO_FIELDS@.len() {
        lemma_info_names(id, k + 1);
    }
}

/// An entry that editors know is called by its name, and any other by its id.
pub proof fn entries_are_called_by_their_names(id: Seq<u8>)
    ensures
        info_name_of(INAM@, 0) == "Title"@,
        info_name_of(ICMT@, 0) == "Comment"@,
        info_name_of(ISBJ@, 0) == "Subject"@,
        (forall|j: int| 0 <= j < INFO_FIELDS@.len() ==> INFO_FIELDS@[j].0@ != id) ==> info_name_of(
            id,
            0,
        ) == text_of(id),
{
    if forall|j: int| 0 <= j < INFO_FIELDS@.len() ==> INFO_FIELDS@[j].0@ != id {
        lemma_info_names(id, 0);
    }
    reveal_with_fuel(info_name_of, 5);
    let f = INFO_FIELDS@;
    assert(f[0].0@ =~= INAM@);
    assert(f[2].0@ =~= ICMT@);
    assert(f[3].0@ =~= ISBJ@);
    assert(f[0].0@[1] == 0x4E && f[1].0@[1] == 0x41 && f[2].0@[1] == 0x43 && f[3].0@[1] == 0x53);
    assert(ICMT@[1] == 0x43 && ISBJ@[1] == 0x53 && INAM@[1] == 0x4E);
}

/// A comment in an element is no part of its text.
pub proof fn a_comment_is_not_read(
    before: Seq<char>,
    name: Seq<char>,
    a: Seq<char>,
    comment: Seq<char>,
    b: Seq<char>,
    after: Seq<char>,
)
    requires
        is_plain_name(name),
        !a.contains('<'),
        !b.contains('<'),
        ({
            let s = commented(before, name, a, comment, b, after);
            let from = before.len() + 2 + name.len() + a.len() + 4;
            let stop = seq!['-', '-', '>'];
            forall|k: int|
                from <= k < from + comment.len() ==> !#[trigger] stands_at(s, stop, k)
        }),
    ensures
        element_at(
            commented(before, name, a, comment, b, after),
            before.len() as int,
        ) matches Some((node, end)) && node.name == name && node.text == unescape_of(a + b)
            && node.children.len() == 0,
{
    let s = commented(before, name, a, comment, b, after);
    lemma_commented_places(before, name, a, comment, b, after);
    lemma_commented_read(s, before.len() as int, name, a, comment, b);
}

/// Where the parts of an element with a comment stand.
#[verifier::opaque]
spec fn parts_stand(
    s: Seq<char>,
    i: int,
    name: Seq<char>,
    a: Seq<char>,
    comment: Seq<char>,
    b: Seq<char>,
) -> bool {
    let p = i + 2 + name.len();
    let q = p + a.len();
    let d = q + 4 + comment.len();
    let f = d + 3 + b.len();
    &&& 0 <= i && f + 3 + name.len() <= s.len()
    &&& s[i] == '<' && s.subrange(i + 1, p - 1) == name && s[p - 1] == '>'
    &&& s.subrange(p, q) == a
    &&& s.subrange(q, q + 4) == seq!['<', '!', '-', '-']
    &&& s.subrange(d, d + 3) == seq!['-', '-', '>']
    &&& s.subrange(d + 3, f) == b
    &&& s[f] == '<' && s[f + 1] == '/' && s.subrange(f + 2, f + 2 + name.len()) == name && s[f + 2
        + name.len()] == '>'
}

proof fn lemma_commented_places(
    before: Seq<char>,
    name: Seq<char>,
    a: Seq<char>,
    comment: Seq<char>,
    b: Seq<char>,
    after: Seq<char>,
)
    ensures
        parts_stand(
            commented(before, name, a, comment, b, after),
            before.len() as int,
            name,
            a,
            comment,
            b,
        ),
{
    reveal(parts_stand);
    let s = commented(before, name, a, comment, b, after);
    let i = before.len() as int;
    let p = i + 2 + name.len();
    let q = p + a.len();
    let d = q + 4 + comment.len();
    let f = d + 3 + b.len();
    assert(s.subrange(i + 1, p - 1) =~= name);
    assert(s.subrange(p, q) =~= a);
    assert(s.subrange(q, q + 4) =~= seq!['<', '!', '-', '-']);
    assert(s.subrange(d, d + 3) =~= seq!['-', '-', '>']);
    assert(s.subrange(d + 3, f) =~= b);
    assert(s.subrange(f + 2, f + 2 + name.len()) =~= name);
}

proof fn lemma_no_tag_in(s: Seq<char>, from: int, to: int, text: Seq<char>)
    requires
        0 <= from <= to <= s.len(),
        s.subrange(from, to) == text,
        !text.contains('<'),
    ensures
        forall|x: int| from <= x < to ==> #[trigger] s[x] != '<',
{
    assert forall|x: int| from <= x < to implies #[trigger] s[x] != '<' by {
        assert(s.subrange(from, to)[x - from] == text[x - from]);
        assert(text.contains(text[x - from]));
    }
}

proof fn lemma_comment_step(s: Seq<char>, q: int, d: int)
    requires
        0 <= q,
        q + 4 <= d,
        d + 3 <= s.len(),
        s.subrange(q, q + 4) == seq!['<', '!', '-', '-'],
        find_of(s, seq!['-', '-', '>'], q + 4) == d,
    ensures
        step_at(s, q) == (Step::Aside { to: d + 3 }),
{
    let part = s.subrange(q, q + 4);
    assert(part[0] == s[q] && part[2] == s[q + 2]);
    if stands(s, cdata_start(), q) {
        assert(s.subrange(q, q + 9)[2] == s[q + 2]);
        assert(cdata_start()[2] == '[');
    }
}

proof fn lemma_commented_read(
    s: Seq<char>,
    i: int,
    name: Seq<char>,
    a: Seq<char>,
    comment: Seq<char>,
    b: Seq<char>,
)
    requires
        parts_stand(s, i, name, a, comment, b),
        is_plain_name(name),
        !a.contains('<'),
        !b.contains('<'),
        ({
            let from = i + 2 + name.len() + a.len() + 4;
            let stop = seq!['-', '-', '>'];
            forall|k: int|
                from <= k < from + comment.len() ==> !#[trigger] stands_at(s, stop, k)
        }),
    ensures
        element_at(s, i) matches Some((node, end)) && node.name == name && node.text == unescape_of(
            a + b,
        ) && node.children.len() == 0,
{
    reveal(parts_stand);
    let p = i + 2 + name.len();
    let q = p + a.len();
    let d = q + 4 + comment.len();
    let e = d + 3;
    let f = e + b.len();
    let none = Seq::<char>::empty();
    let stop = seq!['-', '-', '>'];
    assert forall|x: int| i + 1 <= x < p - 1 implies !white(#[trigger] s[x]) && s[x] != '/' && s[x]
        != '>' && s[x] != '"' && s[x] != '\'' by {
        assert(s.subrange(i + 1, p - 1)[x - i - 1] == name[x - i - 1]);
    }
    lemma_named_tag(s, i + 1, p - 1);
    assert(s[p - 2] != '/');
    assert(element_at(s, i) == content_at(s, p, name, p, none, Seq::empty()));
    lemma_no_tag_in(s, p, q, a);
    lemma_text_read(s, p, q, name, p, none, Seq::empty());
    assert(none + s.subrange(p, q) =~= a);
    assert(stands_at(s, stop, d));
    lemma_found_first(s, stop, q + 4, d);
    lemma_comment_step(s, q, d);
    assert(content_at(s, q, name, p, a, Seq::empty()) == content_at(
        s,
        e,
        name,
        p,
        a,
        Seq::empty(),
    ));
    lemma_no_tag_in(s, e, f, b);
    lemma_text_read(s, e, f, name, p, a, Seq::empty());
    assert(a + s.subrange(e, f) == a + b);
    lemma_closing(s, f, name);
}

/// An element with a comment between two stretches of its text.
pub open spec fn commented(
    before: Seq<char>,
    name: Seq<char>,
    a: Seq<char>,
    comment: Seq<char>,
    b: Seq<char>,
    after: Seq<char>,
) -> Seq<char> {
    before + seq!['<'] + name + seq!['>'] + a + seq!['<', '!', '-', '-'] + comment + seq![
        '-',
        '-',
        '>',
    ] + b + seq!['<', '/'] + name + seq!['>'] + after
}

/// Whether a name has nothing in it that ends one.
pub open spec fn is_plain_name(name: Seq<char>) -> bool {
    &&& name.len() > 0
    &&& unquoted(name)
    &&& forall|x: int|
        0 <= x < name.len() ==> !white(#[trigger] name[x]) && name[x] != '/' && name[x] != '>'
}

/// What stands behind an element's name in its tag is no part of it, quoted
/// signs included: an element with an attribute reads as one without.
pub proof fn an_attribute_is_not_read(
    before: Seq<char>,
    name: Seq<char>,
    key: Seq<char>,
    quoted: Seq<char>,
    text: Seq<char>,
    after: Seq<char>,
)
    requires
        is_plain_name(name),
        is_plain_name(key),
        !quoted.contains('"'),
        !text.contains('<'),
    ensures
        element_at(
            before + seq!['<'] + name + seq![' '] + key + seq!['=', '"'] + quoted + seq!['"', '>']
                + text + seq!['<', '/'] + name + seq!['>'] + after,
            before.len() as int,
        ) matches Some((node, end)) && node.name == name && node.text == unescape_of(text)
            && node.children.len() == 0,
{
    let s = before + seq!['<'] + name + seq![' '] + key + seq!['=', '"'] + quoted + seq!['"', '>']
        + text + seq!['<', '/'] + name + seq!['>'] + after;
    let i = before.len() as int;
    let space = i + 1 + name.len();
    let opened = space + 2 + key.len();
    let closed = opened + 1 + quoted.len();
    let q = closed + 2 + text.len();
    assert(tag_stands(s, i, name, key, quoted, text)) by {
        reveal(tag_stands);
        assert(s.subrange(i + 1, space) =~= name);
        assert(s.subrange(space + 1, opened - 1) =~= key);
        assert(s.subrange(opened + 1, closed) =~= quoted);
        assert(s.subrange(closed + 2, q) =~= text);
        assert(s.subrange(q + 2, q + 2 + name.len()) =~= name);
    }
    lemma_attribute_passed(s, i, name, key, quoted, text);
    lemma_element_closed(s, i, name, key, quoted, text);
}

/// Where the parts of an element with an attribute stand.
#[verifier::opaque]
spec fn tag_stands(
    s: Seq<char>,
    i: int,
    name: Seq<char>,
    key: Seq<char>,
    quoted: Seq<char>,
    text: Seq<char>,
) -> bool {
    let space = i + 1 + name.len();
    let opened = space + 2 + key.len();
    let closed = opened + 1 + quoted.len();
    let q = closed + 2 + text.len();
    &&& 0 <= i && q + 3 + name.len() <= s.len()
    &&& s[i] == '<' && s.subrange(i + 1, space) == name && s[space] == ' '
    &&& s.subrange(space + 1, opened - 1) == key && s[opened - 1] == '=' && s[opened] == '"'
    &&& s.subrange(opened + 1, closed) == quoted && s[closed] == '"' && s[closed + 1] == '>'
    &&& s.subrange(closed + 2, q) == text
    &&& s[q] == '<' && s[q + 1] == '/' && s.subrange(q + 2, q + 2 + name.len()) == name && s[q + 2
        + name.len()] == '>'
}

proof fn lemma_attribute_passed(
    s: Seq<char>,
    i: int,
    name: Seq<char>,
    key: Seq<char>,
    quoted: Seq<char>,
    text: Seq<char>,
)
    requires
        tag_stands(s, i, name, key, quoted, text),
        is_plain_name(name),
        is_plain_name(key),
        !quoted.contains('"'),
    ensures
        name_end(s, i + 1) == i + 1 + name.len(),
        tag_end(s, i + 1, None) == i + 5 + name.len() + key.len() + quoted.len(),
{
    reveal(tag_stands);
    let space = i + 1 + name.len();
    let opened = space + 2 + key.len();
    let closed = opened + 1 + quoted.len();
    assert forall|x: int| i + 1 <= x < space implies !white(#[trigger] s[x]) && s[x] != '/' && s[x]
        != '>' && s[x] != '"' && s[x] != '\'' by {
        assert(s.subrange(i + 1, space)[x - i - 1] == name[x - i - 1]);
    }
    lemma_name_ends(s, i + 1, space);
    assert forall|x: int| i + 1 <= x < opened implies #[trigger] s[x] != '>' && s[x] != '"' && s[x]
        != '\'' by {
        if space < x < opened - 1 {
            assert(s.subrange(space + 1, opened - 1)[x - space - 1] == key[x - space - 1]);
        }
    }
    assert forall|x: int| opened + 1 <= x < closed implies #[trigger] s[x] != '"' by {
        assert(s.subrange(opened + 1, closed)[x - opened - 1] == quoted[x - opened - 1]);
        assert(quoted.contains(quoted[x - opened - 1]));
    }
    lemma_tag_goes_on(s, i + 1, opened);
    lemma_quotes_go_on(s, opened + 1, closed);
    assert(tag_end(s, closed + 1, None) == closed + 1);
}

proof fn lemma_element_closed(
    s: Seq<char>,
    i: int,
    name: Seq<char>,
    key: Seq<char>,
    quoted: Seq<char>,
    text: Seq<char>,
)
    requires
        tag_stands(s, i, name, key, quoted, text),
        is_plain_name(name),
        !text.contains('<'),
        name_end(s, i + 1) == i + 1 + name.len(),
        tag_end(s, i + 1, None) == i + 5 + name.len() + key.len() + quoted.len(),
    ensures
        element_at(s, i) matches Some((node, end)) && node.name == name && node.text == unescape_of(
            text,
        ) && node.children.len() == 0,
{
    reveal(tag_stands);
    let p = i + 6 + name.len() + key.len() + quoted.len();
    let q = p + text.len();
    let none = Seq::<char>::empty();
    assert(s[p - 2] == '"');
    assert(element_at(s, i) == content_at(s, p, name, p, none, Seq::empty()));
    lemma_no_tag_in(s, p, q, text);
    lemma_text_read(s, p, q, name, p, none, Seq::empty());
    assert(none + s.subrange(p, q) =~= text);
    lemma_closing(s, q, name);
}

proof fn lemma_name_ends(s: Seq<char>, i: int, end: int)
    requires
        0 <= i <= end < s.len(),
        white(s[end]),
        forall|x: int| i <= x < end ==> !white(#[trigger] s[x]) && s[x] != '/' && s[x] != '>',
    ensures
        name_end(s, i) == end,
    decreases end - i,
{
    if i < end {
        assert(!white(s[i]));
        lemma_name_ends(s, i + 1, end);
    }
}

proof fn lemma_tag_goes_on(s: Seq<char>, i: int, end: int)
    requires
        0 <= i <= end < s.len(),
        s[end] == '"',
        forall|x: int| i <= x < end ==> #[trigger] s[x] != '>' && s[x] != '"' && s[x] != '\'',
    ensures
        tag_end(s, i, None) == tag_end(s, end + 1, Some('"')),
    decreases end - i,
{
    if i < end {
        assert(s[i] != '>');
        lemma_tag_goes_on(s, i + 1, end);
    }
}

proof fn lemma_quotes_go_on(s: Seq<char>, i: int, end: int)
    requires
        0 <= i <= end < s.len(),
        s[end] == '"',
        forall|x: int| i <= x < end ==> #[trigger] s[x] != '"',
    ensures
        tag_end(s, i, Some('"')) == tag_end(s, end + 1, None),
    decreases end - i,
{
    if i < end {
        assert(s[i] != '"');
        lemma_quotes_go_on(s, i + 1, end);
    }
}

/// Of several texts the first that says something to people is taken.
pub proof fn the_first_text_for_people_counts(
    before: Seq<Seq<char>>,
    text: Seq<char>,
    after: Seq<Seq<char>>,
)
    requires
        forall|i: int| 0 <= i < before.len() ==> human_of(#[trigger] before[i]) is None,
        human_of(text) is Some,
    ensures
        first_human(before + seq![text] + after) == human_of(text),
        first_human(before) is None,
    decreases before.len(),
{
    let all = before + seq![text] + after;
    if before.len() > 0 {
        let rest = before.skip(1);
        assert forall|i: int| 0 <= i < rest.len() implies human_of(#[trigger] rest[i]) is None by {
            assert(rest[i] == before[i + 1]);
        }
        the_first_text_for_people_counts(rest, text, after);
        assert(all[0] == before[0]);
        assert(all.skip(1) =~= rest + seq![text] + after);
        assert(human_of(before[0]) is None);
    } else {
        assert(all[0] == text);
    }
}

/// An element that holds another has it as its child, and no text of its own.
pub proof fn an_element_holds_its_child(
    before: Seq<char>,
    outer: Seq<char>,
    inner: Seq<char>,
    value: Seq<char>,
    after: Seq<char>,
)
    requires
        is_plain_name(outer),
        is_plain_name(inner),
        inner[0] != '!',
        inner[0] != '?',
    ensures
        ({
            let child = seq!['<'] + inner + seq!['>'] + escape_of(value) + seq!['<', '/'] + inner
                + seq!['>'];
            element_at(
                before + seq!['<'] + outer + seq!['>'] + child + seq!['<', '/'] + outer + seq!['>']
                    + after,
                before.len() as int,
            ) matches Some((node, end)) && node.name == outer && node.text.len() == 0
                && node.children.len() == 1 && node.children[0].name == inner
                && node.children[0].text == value && node.children[0].children.len() == 0
        }),
{
    let child = seq!['<'] + inner + seq!['>'] + escape_of(value) + seq!['<', '/'] + inner + seq![
        '>',
    ];
    let head = before + seq!['<'] + outer + seq!['>'];
    let tail = seq!['<', '/'] + outer + seq!['>'] + after;
    let s = before + seq!['<'] + outer + seq!['>'] + child + seq!['<', '/'] + outer + seq!['>']
        + after;
    let i = before.len() as int;
    let p = i + 2 + outer.len();
    let q = p + child.len();
    assert(s =~= head + child + tail);
    an_element_reads_as_its_text(head, inner, value, tail);
    assert(s.subrange(i + 1, p - 1) =~= outer);
    assert(s[i] == '<' && s[p - 1] == '>' && s[p] == '<');
    assert(s[p + 1] == inner[0]) by {
        assert(child[1] == inner[0]);
    }
    assert(s[q] == '<' && s[q + 1] == '/' && s[q + 2 + outer.len()] == '>');
    assert(s.subrange(q + 2, q + 2 + outer.len()) =~= outer);
    lemma_child_read(s, i, outer, p, q);
}

proof fn lemma_child_read(s: Seq<char>, i: int, outer: Seq<char>, p: int, q: int)
    requires
        is_plain_name(outer),
        0 <= i,
        p == i + 2 + outer.len(),
        p + 1 < q,
        q + 3 + outer.len() <= s.len(),
        s[i] == '<',
        s.subrange(i + 1, p - 1) == outer,
        s[p - 1] == '>',
        s[p] == '<',
        s[p + 1] != '!',
        s[p + 1] != '?',
        s[p + 1] != '/',
        s[q] == '<',
        s[q + 1] == '/',
        s.subrange(q + 2, q + 2 + outer.len()) == outer,
        s[q + 2 + outer.len()] == '>',
        element_at(s, p) is Some,
        (element_at(s, p)->0).1 == q,
    ensures
        element_at(s, i) matches Some((node, end)) && node.name == outer && node.text.len() == 0
            && node.children == seq![(element_at(s, p)->0).0],
{
    let none = Seq::<char>::empty();
    let one = Seq::<Node>::empty().push((element_at(s, p)->0).0);
    assert forall|x: int| i + 1 <= x < p - 1 implies !white(#[trigger] s[x]) && s[x] != '/' && s[x]
        != '>' && s[x] != '"' && s[x] != '\'' by {
        assert(s.subrange(i + 1, p - 1)[x - i - 1] == outer[x - i - 1]);
    }
    lemma_named_tag(s, i + 1, p - 1);
    assert(s[p - 2] != '/');
    assert(element_at(s, i) == content_at(s, p, outer, p, none, Seq::empty()));
    lemma_opens_here(s, p);
    assert(content_at(s, p, outer, p, none, Seq::empty()) == content_at(s, q, outer, p, none, one));
    lemma_closing(s, q, outer);
    assert(unescape_of(none) =~= none);
    assert(one =~= seq![(element_at(s, p)->0).0]);
}

proof fn lemma_opens_here(s: Seq<char>, p: int)
    requires
        0 <= p,
        p + 1 < s.len(),
        s[p] == '<',
        s[p + 1] != '!',
        s[p + 1] != '?',
        s[p + 1] != '/',
    ensures
        step_at(s, p) == Step::Open,
{
    let (a, b, c, d) = (seq!['<', '!', '-', '-'], seq!['<', '?'], seq!['<', '!'], seq!['<', '/']);
    assert(cdata_start()[1] == '!' && a[1] == '!' && b[1] == '?' && c[1] == '!' && d[1] == '/');
    if stands(s, cdata_start(), p) {
        assert(s.subrange(p, p + 9)[1] == s[p + 1]);
    }
    if stands(s, a, p) {
        assert(s.subrange(p, p + 4)[1] == s[p + 1]);
    }
    if stands(s, b, p) {
        assert(s.subrange(p, p + 2)[1] == s[p + 1]);
    }
    if stands(s, c, p) {
        assert(s.subrange(p, p + 2)[1] == s[p + 1]);
    }
    if stands(s, d, p) {
        assert(s.subrange(p, p + 2)[1] == s[p + 1]);
    }
}

} // verus!
