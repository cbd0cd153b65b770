//! A document with fields written anew, read again: what stands before and
//! behind a field reads as it did, so only that field's text is another.

use crate::edit::{
    document_leaves, field_text, fields_stand_in_the_document, inside, leaf_places, leaves_of,
    leaves_upto, namesakes, numbered_of, spliced, LeafView,
};
use crate::meta::{
    cdata_end, cdata_start, escape_of, escaped_char, escaped_text_reads_back, lemma_find,
};
use crate::text::{trim_of, white};
use crate::xml::{
    content_at, document_of, element_at, elements_are_nested, lemma_step, lemma_tag_end, name_end,
    nested, past, root_at, stands, step_at, tag_end, Node, Span, Step,
};
use vstd::prelude::*;

verus! {

/// Whether two texts are the same up to `p`.
spec fn agree(s: Seq<char>, t: Seq<char>, p: int) -> bool {
    &&& p <= s.len()
    &&& p <= t.len()
    &&& forall|j: int| 0 <= j < p ==> #[trigger] s[j] == t[j]
}

/// Whether `t` is from `p + d` on what `s` is from `p` on.
spec fn moved(s: Seq<char>, t: Seq<char>, p: int, d: int) -> bool {
    &&& 0 <= p <= s.len()
    &&& 0 <= p + d
    &&& t.len() == s.len() + d
    &&& forall|j: int| p <= j < s.len() ==> #[trigger] s[j] == t[j + d]
}

proof fn lemma_tag_end_moved(
    s: Seq<char>,
    t: Seq<char>,
    p: int,
    d: int,
    i: int,
    quote: Option<char>,
)
    requires
        moved(s, t, p, d),
        p <= i,
    ensures
        tag_end(s, i, quote) < s.len() ==> tag_end(t, i + d, quote) == tag_end(s, i, quote) + d,
        tag_end(s, i, quote) >= s.len() ==> tag_end(t, i + d, quote) >= t.len(),
    decreases s.len() - i,
{
    if i < s.len() {
        assert(s[i] == t[i + d]);
        lemma_tag_end_moved(s, t, p, d, i + 1, None);
        lemma_tag_end_moved(s, t, p, d, i + 1, quote);
        lemma_tag_end_moved(s, t, p, d, i + 1, Some(s[i]));
    }
}

proof fn lemma_name_end_moved(s: Seq<char>, t: Seq<char>, p: int, d: int, i: int)
    requires
        moved(s, t, p, d),
        p <= i,
    ensures
        name_end(t, i + d) == name_end(s, i) + d,
    decreases s.len() - i,
{
    if i < s.len() {
        assert(s[i] == t[i + d]);
        lemma_name_end_moved(s, t, p, d, i + 1);
    }
}

proof fn lemma_stands_moved(
    s: Seq<char>,
    t: Seq<char>,
    p: int,
    d: int,
    pattern: Seq<char>,
    i: int,
)
    requires
        moved(s, t, p, d),
        p <= i,
    ensures
        stands(t, pattern, i + d) == stands(s, pattern, i),
{
    let n = pattern.len();
    if i + n <= s.len() {
        assert(t.subrange(i + d, i + d + n) =~= s.subrange(i, i + n));
    }
}

proof fn lemma_past_moved(s: Seq<char>, t: Seq<char>, p: int, d: int, pattern: Seq<char>, i: int)
    requires
        moved(s, t, p, d),
        p <= i,
    ensures
        past(t, pattern, i + d) == match past(s, pattern, i) {
            Some(to) => Some(to + d),
            None => None,
        },
    decreases s.len() - i + 1,
{
    let n = pattern.len();
    if i + n <= s.len() {
        assert(t.subrange(i + d, i + d + n) =~= s.subrange(i, i + n));
        lemma_past_moved(s, t, p, d, pattern, i + 1);
    }
}

/// A step, with the places in it moved.
spec fn moved_step(step: Step, d: int) -> Step {
    match step {
        Step::Close { name, to } => Step::Close { name, to: to + d },
        Step::Aside { to } => Step::Aside { to: to + d },
        Step::Text { to } => Step::Text { to: to + d },
        Step::Open => Step::Open,
        Step::Cut => Step::Cut,
    }
}

proof fn lemma_step_moved(s: Seq<char>, t: Seq<char>, p: int, d: int, i: int)
    requires
        moved(s, t, p, d),
        p <= i < s.len(),
    ensures
        step_at(t, i + d) == moved_step(step_at(s, i), d),
{
    assert(s[i] == t[i + d]);
    lemma_stands_moved(s, t, p, d, cdata_start(), i);
    lemma_stands_moved(s, t, p, d, seq!['<', '!', '-', '-'], i);
    lemma_stands_moved(s, t, p, d, seq!['<', '?'], i);
    lemma_stands_moved(s, t, p, d, seq!['<', '!'], i);
    lemma_stands_moved(s, t, p, d, seq!['<', '/'], i);
    lemma_past_moved(s, t, p, d, cdata_end(), i + 9);
    lemma_past_moved(s, t, p, d, seq!['-', '-', '>'], i + 4);
    lemma_past_moved(s, t, p, d, seq!['?', '>'], i + 2);
    lemma_tag_end_moved(s, t, p, d, i + 2, None);
    let end = tag_end(s, i + 2, None);
    if end < s.len() && stands(s, seq!['<', '/'], i) {
        lemma_tag_end(s, i + 2, None);
        assert(t.subrange(i + d + 2, end + d) =~= s.subrange(i + 2, end));
    }
}

proof fn lemma_tag_end_stays(s: Seq<char>, t: Seq<char>, p: int, i: int, quote: Option<char>)
    requires
        agree(s, t, p),
        0 <= i,
        tag_end(s, i, quote) < p,
    ensures
        tag_end(t, i, quote) == tag_end(s, i, quote),
        i <= tag_end(s, i, quote),
        s[tag_end(s, i, quote)] == '>',
    decreases s.len() - i,
{
    if i < s.len() {
        match quote {
            Some(q) => {
                let next = if s[i] == q {
                    None
                } else {
                    quote
                };
                lemma_tag_end_stays(s, t, p, i + 1, next);
                assert(s[i] == t[i]);
            },
            None => {
                if s[i] == '>' {
                    assert(s[i] == t[i]);
                } else if s[i] == '"' || s[i] == '\'' {
                    lemma_tag_end_stays(s, t, p, i + 1, Some(s[i]));
                    assert(s[i] == t[i]);
                } else {
                    lemma_tag_end_stays(s, t, p, i + 1, None);
                    assert(s[i] == t[i]);
                }
            },
        }
    }
}

proof fn lemma_name_end_stays(s: Seq<char>, t: Seq<char>, p: int, i: int)
    requires
        agree(s, t, p),
        0 <= i,
        name_end(s, i) < p,
    ensures
        name_end(t, i) == name_end(s, i),
        i <= name_end(s, i),
    decreases s.len() - i,
{
    if i < s.len() && !(white(s[i]) || s[i] == '/' || s[i] == '>') {
        lemma_name_end_stays(s, t, p, i + 1);
        assert(s[i] == t[i]);
    } else if i < s.len() {
        assert(s[i] == t[i]);
    }
}

proof fn lemma_past_stays(s: Seq<char>, t: Seq<char>, p: int, pattern: Seq<char>, i: int)
    requires
        agree(s, t, p),
        0 <= i,
        past(s, pattern, i) matches Some(to) && to <= p,
    ensures
        past(t, pattern, i) == past(s, pattern, i),
    decreases s.len() - i + 1,
{
    let n = pattern.len();
    if i + n <= s.len() {
        if s.subrange(i, i + n) == pattern {
            assert(t.subrange(i, i + n) =~= s.subrange(i, i + n));
        } else {
            lemma_find(s, pattern, i + 1);
            assert(i + n <= p);
            assert(t.subrange(i, i + n) =~= s.subrange(i, i + n));
            lemma_past_stays(s, t, p, pattern, i + 1);
        }
    }
}

proof fn lemma_stands_stays(s: Seq<char>, t: Seq<char>, p: int, pattern: Seq<char>, i: int)
    requires
        agree(s, t, p),
        0 <= i,
        i + pattern.len() <= p,
    ensures
        stands(t, pattern, i) == stands(s, pattern, i),
{
    let n = pattern.len();
    assert(t.subrange(i, i + n) =~= s.subrange(i, i + n));
}

/// Where a step ends.
spec fn step_end(step: Step) -> Option<int> {
    match step {
        Step::Close { name, to } => Some(to),
        Step::Aside { to } => Some(to),
        Step::Text { to } => Some(to),
        _ => None,
    }
}

/// What `stands` says, character by character.
proof fn lemma_stands(s: Seq<char>, pattern: Seq<char>, i: int)
    ensures
        stands(s, pattern, i) <==> 0 <= i && i + pattern.len() <= s.len() && forall|j: int|
            0 <= j < pattern.len() ==> s[i + j] == #[trigger] pattern[j],
{
    if 0 <= i && i + pattern.len() <= s.len() {
        let here = s.subrange(i, i + pattern.len());
        if forall|j: int| 0 <= j < pattern.len() ==> s[i + j] == #[trigger] pattern[j] {
            assert(here =~= pattern);
        }
        if here == pattern {
            assert forall|j: int| 0 <= j < pattern.len() implies s[i + j]
                == #[trigger] pattern[j] by {
                assert(here[j] == s[i + j]);
            }
        }
    }
}

/// A pattern that holds no `>` stands in both texts or in neither, where a
/// `>` stands soon enough behind it.
proof fn lemma_stands_before(
    s: Seq<char>,
    t: Seq<char>,
    p: int,
    pattern: Seq<char>,
    i: int,
    end: int,
)
    requires
        agree(s, t, p),
        0 <= i <= end < p,
        s[end] == '>',
        forall|j: int| 0 <= j < pattern.len() ==> #[trigger] pattern[j] != '>',
    ensures
        stands(t, pattern, i) == stands(s, pattern, i),
{
    lemma_stands(s, pattern, i);
    lemma_stands(t, pattern, i);
    assert(t[end] == '>');
    if i + pattern.len() <= p {
        lemma_stands_stays(s, t, p, pattern, i);
    } else {
        assert(pattern[end - i] != '>');
        assert(s[i + (end - i)] == s[end]);
        assert(t[i + (end - i)] == t[end]);
    }
}

proof fn lemma_tag_stays(s: Seq<char>, t: Seq<char>, p: int, i: int)
    requires
        agree(s, t, p),
        0 <= i,
        tag_end(s, i + 2, None) < p,
    ensures
        tag_end(t, i + 2, None) == tag_end(s, i + 2, None),
        i + 2 <= tag_end(s, i + 2, None),
        stands(t, cdata_start(), i) == stands(s, cdata_start(), i),
        stands(t, seq!['<', '!', '-', '-'], i) == stands(s, seq!['<', '!', '-', '-'], i),
{
    let end = tag_end(s, i + 2, None);
    lemma_tag_end_stays(s, t, p, i + 2, None);
    lemma_stands_before(s, t, p, cdata_start(), i, end);
    lemma_stands_before(s, t, p, seq!['<', '!', '-', '-'], i, end);
}

proof fn lemma_step_stays(s: Seq<char>, t: Seq<char>, p: int, i: int)
    requires
        agree(s, t, p),
        0 <= i < s.len(),
        step_end(step_at(s, i)) matches Some(to) && to <= p,
    ensures
        step_at(t, i) == step_at(s, i),
{
    lemma_step(s, i);
    assert(s[i] == t[i]);
    if s[i] == '<' {
        let cdata = cdata_start();
        let comment = seq!['<', '!', '-', '-'];
        let order = seq!['<', '?'];
        let other = seq!['<', '!'];
        let close = seq!['<', '/'];
        lemma_find(s, cdata_end(), i + 9);
        lemma_find(s, seq!['-', '-', '>'], i + 4);
        lemma_find(s, seq!['?', '>'], i + 2);
        lemma_stands(s, cdata, i);
        lemma_stands(t, cdata, i);
        lemma_stands(s, comment, i);
        lemma_stands(t, comment, i);
        lemma_stands(s, order, i);
        lemma_stands(s, other, i);
        lemma_stands(s, close, i);
        assert(cdata[1] == '!' && cdata[2] == '[');
        assert(comment[1] == '!' && comment[2] == '-');
        if stands(s, cdata, i) {
            lemma_stands_stays(s, t, p, cdata, i);
            lemma_past_stays(s, t, p, cdata_end(), i + 9);
        } else if stands(s, comment, i) {
            lemma_stands_stays(s, t, p, comment, i);
            lemma_past_stays(s, t, p, seq!['-', '-', '>'], i + 4);
            assert(s[i + 2] == comment[2]);
            assert(t[i + 2] == s[i + 2]);
        } else if stands(s, order, i) {
            lemma_stands_stays(s, t, p, order, i);
            lemma_past_stays(s, t, p, seq!['?', '>'], i + 2);
            assert(s[i + 1] == order[1]);
            assert(t[i + 1] == s[i + 1]);
        } else {
            lemma_tag_stays(s, t, p, i);
            lemma_stands_stays(s, t, p, order, i);
            lemma_stands_stays(s, t, p, other, i);
            lemma_stands_stays(s, t, p, close, i);
            let end = tag_end(s, i + 2, None);
            if stands(s, close, i) {
                assert(t.subrange(i + 2, end) =~= s.subrange(i + 2, end));
            }
        }
    }
}

/// What opens a tag opens one wherever it stands.
proof fn lemma_opens(s: Seq<char>, t: Seq<char>, i: int)
    requires
        0 <= i,
        i + 2 <= s.len(),
        i + 2 <= t.len(),
        s[i] == t[i],
        s[i + 1] == t[i + 1],
        step_at(s, i) is Open,
    ensures
        step_at(t, i) is Open,
{
    let cdata = cdata_start();
    let comment = seq!['<', '!', '-', '-'];
    let order = seq!['<', '?'];
    let other = seq!['<', '!'];
    let close = seq!['<', '/'];
    lemma_stands(t, cdata, i);
    lemma_stands(t, comment, i);
    assert(cdata[1] == '!');
    assert(comment[1] == '!');
    assert(s.subrange(i, i + 2) =~= t.subrange(i, i + 2));
    lemma_stands(t, other, i);
    assert(stands(s, order, i) == stands(t, order, i));
    assert(stands(s, other, i) == stands(t, other, i));
    assert(stands(s, close, i) == stands(t, close, i));
}

proof fn lemma_open_stays(s: Seq<char>, t: Seq<char>, p: int, i: int)
    requires
        agree(s, t, p),
        0 <= i,
        i + 2 <= p,
        step_at(s, i) is Open,
    ensures
        step_at(t, i) is Open,
{
    lemma_opens(s, t, i);
}

proof fn lemma_element_end(s: Seq<char>, i: int)
    ensures
        element_at(s, i) matches Some((n, e)) ==> i < e <= s.len(),
    decreases s.len() - i, 0int,
{
    if 0 <= i < s.len() {
        lemma_tag_end(s, i + 1, None);
        let end = tag_end(s, i + 1, None);
        let to = name_end(s, i + 1);
        if to != i + 1 && end < s.len() && s[end - 1] != '/' {
            lemma_content_end(
                s,
                end + 1,
                s.subrange(i + 1, to),
                end + 1,
                Seq::empty(),
                Seq::empty(),
            );
        }
    }
}

proof fn lemma_content_end(
    s: Seq<char>,
    i: int,
    name: Seq<char>,
    start: int,
    raw: Seq<char>,
    children: Seq<Node>,
)
    ensures
        content_at(s, i, name, start, raw, children) matches Some((n, e)) ==> i < e <= s.len(),
    decreases s.len() - i, 1int,
{
    if 0 <= i < s.len() {
        lemma_step(s, i);
        match step_at(s, i) {
            Step::Aside { to } => {
                lemma_content_end(s, to, name, start, raw, children);
            },
            Step::Text { to } => {
                lemma_content_end(s, to, name, start, raw + s.subrange(i, to), children);
            },
            Step::Open => {
                lemma_element_end(s, i);
                if let Some((child, to)) = element_at(s, i) {
                    lemma_content_end(s, to, name, start, raw, children.push(child));
                }
            },
            _ => {},
        }
    }
}

/// The name of an element and the end of its opening tag, which ends before
/// the element does.
proof fn lemma_opening(s: Seq<char>, i: int)
    requires
        element_at(s, i) is Some,
    ensures
        ({
            let end = tag_end(s, i + 1, None);
            let to = name_end(s, i + 1);
            &&& 0 <= i
            &&& i + 1 < to <= end < (element_at(s, i)->0).1 <= s.len()
            &&& s[end] == '>'
        }),
{
    lemma_element_end(s, i);
    lemma_tag_end(s, i + 1, None);
    let end = tag_end(s, i + 1, None);
    let to = name_end(s, i + 1);
    lemma_tag_end_stays(s, s, s.len() as int, i + 1, None);
    lemma_name_end_before(s, i + 1, end);
    if s[end - 1] != '/' {
        lemma_content_end(s, end + 1, s.subrange(i + 1, to), end + 1, Seq::empty(), Seq::empty());
    }
}

proof fn lemma_name_end_before(s: Seq<char>, i: int, end: int)
    requires
        0 <= i <= end < s.len(),
        s[end] == '>',
    ensures
        i <= name_end(s, i) <= end,
    decreases s.len() - i,
{
    if i < end && !(white(s[i]) || s[i] == '/' || s[i] == '>') {
        lemma_name_end_before(s, i + 1, end);
    }
}

/// An element that ends before the texts differ reads the same in both.
proof fn lemma_element_stays(s: Seq<char>, t: Seq<char>, p: int, i: int)
    requires
        agree(s, t, p),
        element_at(s, i) matches Some((n, e)) && e <= p,
    ensures
        element_at(t, i) == element_at(s, i),
    decreases s.len() - i, 0int,
{
    lemma_opening(s, i);
    let end = tag_end(s, i + 1, None);
    let to = name_end(s, i + 1);
    lemma_tag_end_stays(s, t, p, i + 1, None);
    lemma_name_end_stays(s, t, p, i + 1);
    assert(t.subrange(i + 1, to) =~= s.subrange(i + 1, to));
    assert(s[end - 1] == t[end - 1]);
    if s[end - 1] != '/' {
        lemma_content_stays(
            s,
            t,
            p,
            end + 1,
            s.subrange(i + 1, to),
            end + 1,
            Seq::empty(),
            Seq::empty(),
        );
    }
}

proof fn lemma_content_stays(
    s: Seq<char>,
    t: Seq<char>,
    p: int,
    i: int,
    name: Seq<char>,
    start: int,
    raw: Seq<char>,
    children: Seq<Node>,
)
    requires
        agree(s, t, p),
        content_at(s, i, name, start, raw, children) matches Some((n, e)) && e <= p,
    ensures
        content_at(t, i, name, start, raw, children) == content_at(
            s,
            i,
            name,
            start,
            raw,
            children,
        ),
    decreases s.len() - i, 1int,
{
    lemma_step(s, i);
    lemma_content_end(s, i, name, start, raw, children);
    match step_at(s, i) {
        Step::Close { .. } => {
            lemma_step_stays(s, t, p, i);
        },
        Step::Aside { to } => {
            lemma_content_end(s, to, name, start, raw, children);
            lemma_step_stays(s, t, p, i);
            lemma_content_stays(s, t, p, to, name, start, raw, children);
        },
        Step::Text { to } => {
            let more = raw + s.subrange(i, to);
            lemma_content_end(s, to, name, start, more, children);
            lemma_step_stays(s, t, p, i);
            assert(t.subrange(i, to) =~= s.subrange(i, to));
            lemma_content_stays(s, t, p, to, name, start, more, children);
        },
        Step::Open => {
            let (child, to) = element_at(s, i)->0;
            lemma_opening(s, i);
            lemma_content_end(s, to, name, start, raw, children.push(child));
            lemma_open_stays(s, t, p, i);
            lemma_element_stays(s, t, p, i);
            lemma_content_stays(s, t, p, to, name, start, raw, children.push(child));
        },
        _ => {},
    }
}

/// Whether `m` is `n` but for the text of the field at `at`, and but for
/// where things stand that stood behind it.
pub open spec fn edited(n: Node, m: Node, at: Span, value: Seq<char>) -> bool
    decreases n,
{
    &&& n.name == m.name
    &&& n.children.len() == m.children.len()
    &&& forall|k: int|
        0 <= k < n.children.len() ==> edited(#[trigger] n.children[k], m.children[k], at, value)
    &&& n.children.len() == 0 ==> m.text == if n.span == at {
        value
    } else {
        n.text
    }
    &&& n.span != at && n.span.to() <= at.from() ==> m.span == n.span
}

/// An element that stands behind the field at `at` reads the same where it
/// was moved to.
proof fn lemma_element_moved(
    s: Seq<char>,
    t: Seq<char>,
    p: int,
    d: int,
    i: int,
    at: Span,
    value: Seq<char>,
)
    requires
        moved(s, t, p, d),
        p <= i,
        s.len() <= usize::MAX,
        at.from() < i,
        element_at(s, i) is Some,
    ensures
        ({
            let (n, e) = element_at(s, i)->0;
            element_at(t, i + d) matches Some((m, end)) && end == e + d && edited(n, m, at, value)
        }),
    decreases s.len() - i, 0int,
{
    lemma_opening(s, i);
    let end = tag_end(s, i + 1, None);
    let to = name_end(s, i + 1);
    lemma_tag_end_moved(s, t, p, d, i + 1, None);
    lemma_name_end_moved(s, t, p, d, i + 1);
    assert(t.subrange(i + d + 1, to + d) =~= s.subrange(i + 1, to));
    assert(s[end - 1] == t[end - 1 + d]);
    if s[end - 1] != '/' {
        lemma_content_moved(
            s,
            t,
            p,
            d,
            end + 1,
            s.subrange(i + 1, to),
            end + 1,
            end + 1 + d,
            Seq::empty(),
            Seq::empty(),
            Seq::empty(),
            at,
            value,
        );
    }
}

proof fn lemma_content_moved(
    s: Seq<char>,
    t: Seq<char>,
    p: int,
    d: int,
    i: int,
    name: Seq<char>,
    start: int,
    from: int,
    raw: Seq<char>,
    children: Seq<Node>,
    others: Seq<Node>,
    at: Span,
    value: Seq<char>,
)
    requires
        moved(s, t, p, d),
        p <= i,
        s.len() <= usize::MAX,
        at.from() < i,
        0 <= start <= i,
        at.from() < start || children.len() > 0,
        children.len() == others.len(),
        forall|k: int|
            0 <= k < children.len() ==> edited(#[trigger] children[k], others[k], at, value),
        content_at(s, i, name, start, raw, children) is Some,
    ensures
        ({
            let (n, e) = content_at(s, i, name, start, raw, children)->0;
            content_at(t, i + d, name, from, raw, others) matches Some((m, end)) && end == e + d
                && edited(n, m, at, value)
        }),
    decreases s.len() - i, 1int,
{
    lemma_step(s, i);
    lemma_step_moved(s, t, p, d, i);
    match step_at(s, i) {
        Step::Aside { to } => {
            lemma_content_moved(
                s,
                t,
                p,
                d,
                to,
                name,
                start,
                from,
                raw,
                children,
                others,
                at,
                value,
            );
        },
        Step::Text { to } => {
            let more = raw + s.subrange(i, to);
            assert(t.subrange(i + d, to + d) =~= s.subrange(i, to));
            lemma_content_moved(
                s,
                t,
                p,
                d,
                to,
                name,
                start,
                from,
                more,
                children,
                others,
                at,
                value,
            );
        },
        Step::Open => {
            let (child, to) = element_at(s, i)->0;
            lemma_element_end(s, i);
            lemma_element_moved(s, t, p, d, i, at, value);
            let (other, _) = element_at(t, i + d)->0;
            lemma_content_moved(
                s,
                t,
                p,
                d,
                to,
                name,
                start,
                from,
                raw,
                children.push(child),
                others.push(other),
                at,
                value,
            );
        },
        _ => {},
    }
}

/// Whether `n` is or holds the field at `at`, of this name.
pub open spec fn holds(n: Node, at: Span, name: Seq<char>) -> bool
    decreases n,
{
    if n.children.len() == 0 {
        n.span == at && n.name == name
    } else {
        exists|k: int| 0 <= k < n.children.len() && holds(#[trigger] n.children[k], at, name)
    }
}

/// What was read of an element's content before stays with it, and its text
/// ends where its closing tag starts.
proof fn lemma_content_read(
    s: Seq<char>,
    i: int,
    name: Seq<char>,
    start: int,
    raw: Seq<char>,
    children: Seq<Node>,
)
    requires
        s.len() <= usize::MAX,
        0 <= start <= i,
        content_at(s, i, name, start, raw, children) is Some,
    ensures
        ({
            let (n, e) = content_at(s, i, name, start, raw, children)->0;
            &&& n.name == name
            &&& children.len() <= n.children.len()
            &&& forall|k: int| 0 <= k < children.len() ==> #[trigger] n.children[k] == children[k]
            &&& n.span is Content
            &&& n.span.from() == start
            &&& i <= n.span.to() < e <= s.len()
            &&& step_at(s, n.span.to() as int) == Step::Close { name, to: e }
        }),
    decreases s.len() - i, 1int,
{
    lemma_step(s, i);
    match step_at(s, i) {
        Step::Aside { to } => {
            lemma_content_read(s, to, name, start, raw, children);
        },
        Step::Text { to } => {
            lemma_content_read(s, to, name, start, raw + s.subrange(i, to), children);
        },
        Step::Open => {
            let (child, to) = element_at(s, i)->0;
            let more = children.push(child);
            lemma_content_read(s, to, name, start, raw, more);
            let n = (content_at(s, to, name, start, raw, more)->0).0;
            assert forall|k: int| 0 <= k < children.len() implies #[trigger] n.children[k]
                == children[k] by {
                assert(more[k] == children[k]);
            }
        },
        _ => {},
    }
}

/// Where a field stands that is part of what stands from `i` up to `e`.
spec fn placed(at: Span, i: int, e: int) -> bool {
    match at {
        Span::Content { start, end } => i < start <= end < e,
        Span::Empty { start, end } => i <= start < end <= e,
    }
}

/// A field stands in the element that holds it.
proof fn lemma_field_in_element(s: Seq<char>, i: int, at: Span, name: Seq<char>)
    requires
        s.len() <= usize::MAX,
        element_at(s, i) matches Some((n, e)) && holds(n, at, name),
    ensures
        placed(at, i, (element_at(s, i)->0).1),
    decreases s.len() - i, 0int,
{
    lemma_opening(s, i);
    let end = tag_end(s, i + 1, None);
    let (n, e) = element_at(s, i)->0;
    if s[end - 1] != '/' {
        let named = s.subrange(i + 1, name_end(s, i + 1));
        lemma_content_read(s, end + 1, named, end + 1, Seq::empty(), Seq::empty());
        if n.children.len() > 0 {
            let k = choose|k: int|
                0 <= k < n.children.len() && holds(#[trigger] n.children[k], at, name);
            lemma_field_in_content(
                s,
                end + 1,
                named,
                end + 1,
                Seq::empty(),
                Seq::empty(),
                at,
                name,
                k,
            );
        }
    }
}

proof fn lemma_field_in_content(
    s: Seq<char>,
    i: int,
    named: Seq<char>,
    start: int,
    raw: Seq<char>,
    children: Seq<Node>,
    at: Span,
    name: Seq<char>,
    k: int,
)
    requires
        s.len() <= usize::MAX,
        0 <= start <= i,
        content_at(s, i, named, start, raw, children) matches Some((n, e)) && children.len() <= k
            < n.children.len() && holds(n.children[k], at, name),
    ensures
        placed(at, i, (content_at(s, i, named, start, raw, children)->0).1),
    decreases s.len() - i, 1int,
{
    lemma_step(s, i);
    match step_at(s, i) {
        Step::Aside { to } => {
            lemma_field_in_content(s, to, named, start, raw, children, at, name, k);
        },
        Step::Text { to } => {
            lemma_field_in_content(
                s,
                to,
                named,
                start,
                raw + s.subrange(i, to),
                children,
                at,
                name,
                k,
            );
        },
        Step::Open => {
            let (child, to) = element_at(s, i)->0;
            let more = children.push(child);
            lemma_content_end(s, to, named, start, raw, more);
            if k == children.len() {
                lemma_content_read(s, to, named, start, raw, more);
                assert(more[k] == child);
                lemma_field_in_element(s, i, at, name);
            } else {
                lemma_field_in_content(s, to, named, start, raw, more, at, name, k);
            }
        },
        _ => {},
    }
}

/// An element that does not hold the field is as it was.
proof fn lemma_same_is_edited(n: Node, at: Span, value: Seq<char>)
    requires
        forall|name: Seq<char>| !#[trigger] holds(n, at, name),
    ensures
        edited(n, n, at, value),
    decreases n,
{
    assert(!holds(n, at, n.name));
    assert forall|k: int| 0 <= k < n.children.len() implies edited(
        #[trigger] n.children[k],
        n.children[k],
        at,
        value,
    ) by {
        assert forall|name: Seq<char>| !#[trigger] holds(n.children[k], at, name) by {
            assert(!holds(n, at, name));
        }
        lemma_same_is_edited(n.children[k], at, value);
    }
}

/// Character data is read on to its end.
pub proof fn lemma_text_read(
    t: Seq<char>,
    i: int,
    j: int,
    name: Seq<char>,
    start: int,
    raw: Seq<char>,
    children: Seq<Node>,
)
    requires
        0 <= i <= j <= t.len(),
        forall|x: int| i <= x < j ==> #[trigger] t[x] != '<',
    ensures
        content_at(t, i, name, start, raw, children) == content_at(
            t,
            j,
            name,
            start,
            raw + t.subrange(i, j),
            children,
        ),
    decreases j - i,
{
    if i < j {
        assert(t[i] != '<');
        lemma_text_read(t, i + 1, j, name, start, raw + t.subrange(i, i + 1), children);
        assert(raw + t.subrange(i, i + 1) + t.subrange(i + 1, j) =~= raw + t.subrange(i, j));
    } else {
        assert(raw + t.subrange(i, j) =~= raw);
    }
}

/// Escaped text opens no tag.
proof fn lemma_escaped_has_no_tags(v: Seq<char>)
    ensures
        forall|x: int| 0 <= x < escape_of(v).len() ==> #[trigger] escape_of(v)[x] != '<',
    decreases v.len(),
{
    if v.len() > 0 {
        lemma_escaped_has_no_tags(v.skip(1));
        let first = escaped_char(v[0]);
        let rest = escape_of(v.skip(1));
        assert forall|x: int| 0 <= x < escape_of(v).len() implies #[trigger] escape_of(v)[x]
            != '<' by {
            if x < first.len() {
                assert(escape_of(v)[x] == first[x]);
            } else {
                assert(escape_of(v)[x] == rest[x - first.len()]);
            }
        }
    }
}

/// A document with `mid` in place of what stands from `from` to `to`.
pub open spec fn replaced(s: Seq<char>, at: Span, mid: Seq<char>) -> Seq<char> {
    s.take(at.from() as int) + mid + s.skip(at.to() as int)
}

proof fn lemma_replaced(s: Seq<char>, at: Span, mid: Seq<char>)
    requires
        at.from() <= at.to() <= s.len(),
    ensures
        agree(s, replaced(s, at, mid), at.from() as int),
        moved(
            s,
            replaced(s, at, mid),
            at.to() as int,
            mid.len() - (at.to() - at.from()),
        ),
        replaced(s, at, mid).subrange(at.from() as int, at.from() + mid.len()) == mid,
{
    let t = replaced(s, at, mid);
    assert(t.subrange(at.from() as int, at.from() + mid.len()) =~= mid);
}

/// Whether a name can stand in a tag of its own: it holds no quotes, which
/// would run on past the tag.
pub open spec fn unquoted(name: Seq<char>) -> bool {
    forall|j: int| 0 <= j < name.len() ==> #[trigger] name[j] != '"' && name[j] != '\''
}

/// A name that was read holds nothing that ends one.
proof fn lemma_name_read(s: Seq<char>, i: int)
    requires
        0 <= i,
    ensures
        i <= name_end(s, i),
        i <= s.len() ==> name_end(s, i) <= s.len(),
        forall|j: int|
            i <= j < name_end(s, i) ==> !white(#[trigger] s[j]) && s[j] != '/' && s[j] != '>',
    decreases s.len() - i,
{
    if i < s.len() && !(white(s[i]) || s[i] == '/' || s[i] == '>') {
        lemma_name_read(s, i + 1);
    }
}

/// A name is read up to the `>` behind it.
pub proof fn lemma_named_tag(t: Seq<char>, i: int, end: int)
    requires
        0 <= i <= end < t.len(),
        t[end] == '>',
        forall|j: int|
            i <= j < end ==> !white(#[trigger] t[j]) && t[j] != '/' && t[j] != '>' && t[j] != '"'
                && t[j] != '\'',
    ensures
        name_end(t, i) == end,
        tag_end(t, i, None) == end,
    decreases end - i,
{
    if i < end {
        assert(!white(t[i]));
        lemma_named_tag(t, i + 1, end);
    }
}

/// Text without white space is trimmed.
proof fn lemma_no_white_is_trimmed(s: Seq<char>)
    requires
        forall|j: int| 0 <= j < s.len() ==> !white(#[trigger] s[j]),
    ensures
        trim_of(s) == s,
{
    if s.len() > 0 {
        assert(!white(s[0]));
        assert(!white(s[s.len() - 1]));
    }
}

/// A field's text and its closing tag, read from a new document.
proof fn lemma_text_and_close(
    t: Seq<char>,
    from: int,
    name: Seq<char>,
    start: int,
    value: Seq<char>,
    to: int,
)
    requires
        0 <= from,
        from + escape_of(value).len() < t.len(),
        t.subrange(from, from + escape_of(value).len()) == escape_of(value),
        step_at(t, from + escape_of(value).len()) == (Step::Close { name, to }),
    ensures
        content_at(t, from, name, start, Seq::empty(), Seq::empty()) == Some(
            (
                Node {
                    name,
                    text: value,
                    children: Seq::empty(),
                    span: Span::Content {
                        start: start as usize,
                        end: (from + escape_of(value).len()) as usize,
                    },
                },
                to,
            ),
        ),
{
    let text = escape_of(value);
    let j = from + text.len();
    lemma_escaped_has_no_tags(value);
    escaped_text_reads_back(value);
    assert forall|x: int| from <= x < j implies #[trigger] t[x] != '<' by {
        assert(t.subrange(from, j)[x - from] == text[x - from]);
    }
    lemma_text_read(t, from, j, name, start, Seq::empty(), Seq::empty());
    assert(Seq::<char>::empty() + t.subrange(from, j) =~= text);
}

/// The closing tag of a name.
pub proof fn lemma_closing(t: Seq<char>, j: int, name: Seq<char>)
    requires
        0 <= j,
        j + 3 + name.len() <= t.len(),
        t[j] == '<',
        t[j + 1] == '/',
        t.subrange(j + 2, j + 2 + name.len()) == name,
        t[j + 2 + name.len()] == '>',
        unquoted(name),
        forall|x: int|
            0 <= x < name.len() ==> !white(#[trigger] name[x]) && name[x] != '/' && name[x] != '>',
    ensures
        step_at(t, j) == (Step::Close { name, to: j + 3 + name.len() }),
{
    let cdata = cdata_start();
    let comment = seq!['<', '!', '-', '-'];
    lemma_stands(t, cdata, j);
    lemma_stands(t, comment, j);
    lemma_stands(t, seq!['<', '?'], j);
    lemma_stands(t, seq!['<', '!'], j);
    lemma_stands(t, seq!['<', '/'], j);
    assert(cdata[1] == '!');
    assert(comment[1] == '!');
    assert(seq!['<', '?'][1] == '?');
    assert(seq!['<', '!'][1] == '!');
    let end = j + 2 + name.len();
    assert forall|x: int| j + 2 <= x < end implies !white(#[trigger] t[x]) && t[x] != '/' && t[x]
        != '>' && t[x] != '"' && t[x] != '\'' by {
        assert(t.subrange(j + 2, end)[x - j - 2] == name[x - j - 2]);
    }
    lemma_named_tag(t, j + 2, end);
    lemma_no_white_is_trimmed(name);
}

/// The parts of an element that was written anew.
proof fn lemma_tagged(t: Seq<char>, i: int, name: Seq<char>, text: Seq<char>)
    requires
        0 <= i,
        ({
            let mid = seq!['<'] + name + seq!['>'] + text + seq!['<', '/'] + name + seq!['>'];
            i + mid.len() <= t.len() && t.subrange(i, i + mid.len()) == mid
        }),
    ensures
        t[i] == '<',
        t.subrange(i + 1, i + 1 + name.len()) == name,
        t[i + 1 + name.len()] == '>',
        t.subrange(i + 2 + name.len(), i + 2 + name.len() + text.len()) == text,
        t[i + 2 + name.len() + text.len()] == '<',
        t[i + 3 + name.len() + text.len()] == '/',
        t.subrange(
            i + 4 + name.len() + text.len(),
            i + 4 + name.len() + text.len() + name.len(),
        ) == name,
        t[i + 4 + name.len() + text.len() + name.len()] == '>',
{
    let mid = seq!['<'] + name + seq!['>'] + text + seq!['<', '/'] + name + seq!['>'];
    let c: int = name.len() as int;
    let l: int = text.len() as int;
    assert forall|x: int| 0 <= x < mid.len() implies #[trigger] mid[x] == t[i + x] by {
        assert(t.subrange(i, i + mid.len())[x] == t[i + x]);
    }
    assert(mid[0] == '<');
    assert(mid[1 + c] == '>');
    assert(mid[2 + c + l] == '<');
    assert(mid[3 + c + l] == '/');
    assert(mid[4 + c + l + c] == '>');
    assert(t.subrange(i + 1, i + 1 + c) =~= name) by {
        assert forall|x: int| 0 <= x < c implies t[i + 1 + x] == #[trigger] name[x] by {
            assert(mid[1 + x] == name[x]);
        }
    }
    assert(t.subrange(i + 2 + c, i + 2 + c + l) =~= text) by {
        assert forall|x: int| 0 <= x < l implies t[i + 2 + c + x] == #[trigger] text[x] by {
            assert(mid[2 + c + x] == text[x]);
        }
    }
    assert(t.subrange(i + 4 + c + l, i + 4 + c + l + c) =~= name) by {
        assert forall|x: int| 0 <= x < c implies t[i + 4 + c + l + x] == #[trigger] name[x] by {
            assert(mid[4 + c + l + x] == name[x]);
        }
    }
}

/// An element that was written anew reads as meant.
pub proof fn lemma_tagged_reads(t: Seq<char>, i: int, name: Seq<char>, value: Seq<char>)
    requires
        0 <= i,
        ({
            let mid = field_text(Span::Empty { start: 0, end: 0 }, name, value);
            i + mid.len() <= t.len() && t.subrange(i, i + mid.len()) == mid
        }),
        name.len() > 0,
        unquoted(name),
        forall|x: int|
            0 <= x < name.len() ==> !white(#[trigger] name[x]) && name[x] != '/' && name[x] != '>',
    ensures
        element_at(t, i) matches Some((m, end)) && end == i + field_text(
            Span::Empty { start: 0, end: 0 },
            name,
            value,
        ).len() && m.name == name && m.text == value && m.children.len() == 0,
{
    let text = escape_of(value);
    lemma_tagged(t, i, name, text);
    let end = i + 1 + name.len();
    assert forall|x: int| i + 1 <= x < end implies !white(#[trigger] t[x]) && t[x] != '/' && t[x]
        != '>' && t[x] != '"' && t[x] != '\'' by {
        assert(t.subrange(i + 1, end)[x - i - 1] == name[x - i - 1]);
    }
    lemma_named_tag(t, i + 1, end);
    assert(t[end - 1] != '/');
    let j = end + 1 + text.len();
    lemma_closing(t, j, name);
    lemma_text_and_close(t, end + 1, name, end + 1, value, j + 3 + name.len());
}

/// An element that is written `<NAME/>`.
proof fn lemma_empty_element(s: Seq<char>, i: int)
    requires
        s.len() <= usize::MAX,
        element_at(s, i) matches Some((n, e)) && n.span is Empty,
    ensures
        ({
            let (n, e) = element_at(s, i)->0;
            &&& n.span.from() == i
            &&& n.span.to() == e
            &&& i + 1 < e <= s.len()
            &&& n.children.len() == 0
            &&& n.name.len() > 0
            &&& n.name[0] == s[i + 1]
            &&& forall|x: int|
                0 <= x < n.name.len() ==> !white(#[trigger] n.name[x]) && n.name[x] != '/'
                    && n.name[x] != '>'
        }),
{
    let (n, e) = element_at(s, i)->0;
    lemma_opening(s, i);
    let close = tag_end(s, i + 1, None);
    let to = name_end(s, i + 1);
    let named = s.subrange(i + 1, to);
    if s[close - 1] != '/' {
        lemma_content_read(s, close + 1, named, close + 1, Seq::empty(), Seq::empty());
    }
    lemma_name_read(s, i + 1);
    assert(n.name == named);
    assert forall|x: int| 0 <= x < n.name.len() implies !white(#[trigger] n.name[x]) && n.name[x]
        != '/' && n.name[x] != '>' by {
        assert(named[x] == s[i + 1 + x]);
    }
}

/// A field that was written `<NAME/>` reads with its new text.
proof fn lemma_empty_field_edited(s: Seq<char>, i: int, value: Seq<char>)
    requires
        s.len() <= usize::MAX,
        element_at(s, i) matches Some((n, e)) && n.span is Empty && unquoted(n.name),
    ensures
        ({
            let (n, e) = element_at(s, i)->0;
            let mid = field_text(n.span, n.name, value);
            let t = replaced(s, n.span, mid);
            &&& element_at(t, i) matches Some((m, end)) && end == i + mid.len() && edited(
                n,
                m,
                n.span,
                value,
            )
        }),
{
    let (n, e) = element_at(s, i)->0;
    lemma_empty_element(s, i);
    let mid = field_text(n.span, n.name, value);
    let t = replaced(s, n.span, mid);
    lemma_replaced(s, n.span, mid);
    lemma_tagged_reads(t, i, n.name, value);
}

/// A field that was written `<NAME/>` still opens a tag.
proof fn lemma_empty_field_opens(s: Seq<char>, i: int, value: Seq<char>)
    requires
        s.len() <= usize::MAX,
        element_at(s, i) matches Some((n, e)) && n.span is Empty,
        step_at(s, i) is Open,
    ensures
        ({
            let (n, e) = element_at(s, i)->0;
            let t = replaced(s, n.span, field_text(n.span, n.name, value));
            step_at(t, i) is Open
        }),
{
    let (n, e) = element_at(s, i)->0;
    lemma_empty_element(s, i);
    let mid = field_text(n.span, n.name, value);
    let t = replaced(s, n.span, mid);
    lemma_replaced(s, n.span, mid);
    lemma_tagged(t, i, n.name, escape_of(value));
    assert(t.subrange(i + 1, i + 1 + n.name.len())[0] == n.name[0]);
    assert(t[i + 1] == s[i + 1]);
    assert(t[i] == s[i]);
    lemma_opens(s, t, i);
}

/// A field whose text stands between two tags reads with its new text.
proof fn lemma_content_field_edited(s: Seq<char>, i: int, value: Seq<char>)
    requires
        s.len() <= usize::MAX,
        element_at(s, i) matches Some((n, e)) && n.span is Content && n.children.len() == 0,
    ensures
        ({
            let (n, e) = element_at(s, i)->0;
            let mid = escape_of(value);
            let t = replaced(s, n.span, mid);
            element_at(t, i) matches Some((m, end)) && end == e + mid.len() - (n.span.to()
                - n.span.from()) && edited(n, m, n.span, value)
        }),
{
    let (n, e) = element_at(s, i)->0;
    lemma_opening(s, i);
    let close = tag_end(s, i + 1, None);
    let to = name_end(s, i + 1);
    let name = s.subrange(i + 1, to);
    assert(s[close - 1] != '/');
    lemma_content_read(s, close + 1, name, close + 1, Seq::empty(), Seq::empty());
    let mid = escape_of(value);
    let t = replaced(s, n.span, mid);
    let from = n.span.from() as int;
    let d = mid.len() - (n.span.to() - n.span.from());
    lemma_replaced(s, n.span, mid);
    lemma_tag_end_stays(s, t, from, i + 1, None);
    lemma_name_end_stays(s, t, from, i + 1);
    assert(t.subrange(i + 1, to) =~= name);
    assert(s[close - 1] == t[close - 1]);
    lemma_step_moved(s, t, n.span.to() as int, d, n.span.to() as int);
    lemma_text_and_close(t, from, name, from, value, e + d);
}

/// The element that holds a field reads with the field's new text.
proof fn lemma_element_edited(s: Seq<char>, i: int, at: Span, name: Seq<char>, value: Seq<char>)
    requires
        s.len() <= usize::MAX,
        element_at(s, i) matches Some((n, e)) && holds(n, at, name),
        at is Empty ==> unquoted(name),
        step_at(s, i) is Open,
    ensures
        ({
            let (n, e) = element_at(s, i)->0;
            let mid = field_text(at, name, value);
            let t = replaced(s, at, mid);
            &&& element_at(t, i) matches Some((m, end)) && end == e + mid.len() - (at.to()
                - at.from()) && edited(n, m, at, value)
            &&& step_at(t, i) is Open
        }),
    decreases s.len() - i, 1int,
{
    let (n, e) = element_at(s, i)->0;
    let mid = field_text(at, name, value);
    let t = replaced(s, at, mid);
    lemma_field_in_element(s, i, at, name);
    lemma_opening(s, i);
    if n.span is Empty {
        lemma_empty_element(s, i);
        lemma_empty_field_edited(s, i, value);
        lemma_empty_field_opens(s, i, value);
    } else {
        lemma_replaced(s, at, mid);
        if n.children.len() == 0 {
            lemma_content_field_opens(s, i);
            lemma_content_field_edited(s, i, value);
        } else {
            lemma_inner_edited(s, i, at, name, value);
        }
        lemma_open_stays(s, t, at.from() as int, i);
    }
}

/// The opening tag of an element ends before its content starts.
proof fn lemma_content_field_opens(s: Seq<char>, i: int)
    requires
        s.len() <= usize::MAX,
        element_at(s, i) matches Some((n, e)) && n.span is Content,
    ensures
        i + 2 <= (element_at(s, i)->0).0.span.from(),
{
    lemma_opening(s, i);
    let close = tag_end(s, i + 1, None);
    let name = s.subrange(i + 1, name_end(s, i + 1));
    if s[close - 1] != '/' {
        lemma_content_read(s, close + 1, name, close + 1, Seq::empty(), Seq::empty());
    }
}

/// An element that holds a field in an element in it.
proof fn lemma_inner_edited(s: Seq<char>, i: int, at: Span, name: Seq<char>, value: Seq<char>)
    requires
        s.len() <= usize::MAX,
        element_at(s, i) matches Some((n, e)) && holds(n, at, name) && n.children.len() > 0,
        at is Empty ==> unquoted(name),
    ensures
        ({
            let (n, e) = element_at(s, i)->0;
            let mid = field_text(at, name, value);
            &&& i + 2 <= at.from()
            &&& element_at(replaced(s, at, mid), i) matches Some((m, end)) && end == e + mid.len()
                - (at.to() - at.from()) && edited(n, m, at, value)
        }),
    decreases s.len() - i, 0int,
{
    let (n, e) = element_at(s, i)->0;
    let mid = field_text(at, name, value);
    let t = replaced(s, at, mid);
    lemma_opening(s, i);
    let close = tag_end(s, i + 1, None);
    let to = name_end(s, i + 1);
    let named = s.subrange(i + 1, to);
    assert(s[close - 1] != '/');
    let k = choose|k: int| 0 <= k < n.children.len() && holds(#[trigger] n.children[k], at, name);
    lemma_field_in_content(
        s,
        close + 1,
        named,
        close + 1,
        Seq::empty(),
        Seq::empty(),
        at,
        name,
        k,
    );
    lemma_replaced(s, at, mid);
    lemma_tag_end_stays(s, t, at.from() as int, i + 1, None);
    lemma_name_end_stays(s, t, at.from() as int, i + 1);
    assert(t.subrange(i + 1, to) =~= named);
    assert(s[close - 1] == t[close - 1]);
    lemma_content_edited(
        s,
        close + 1,
        named,
        close + 1,
        Seq::empty(),
        Seq::empty(),
        Seq::empty(),
        at,
        name,
        value,
        k,
    );
}

/// The child that holds the field, and what stands behind it.
proof fn lemma_child_edited(
    s: Seq<char>,
    i: int,
    named: Seq<char>,
    start: int,
    raw: Seq<char>,
    children: Seq<Node>,
    others: Seq<Node>,
    at: Span,
    name: Seq<char>,
    value: Seq<char>,
)
    requires
        s.len() <= usize::MAX,
        0 <= start <= i < s.len(),
        step_at(s, i) is Open,
        content_at(s, i, named, start, raw, children) matches Some((n, e)) && children.len()
            < n.children.len() && holds(n.children[children.len() as int], at, name),
        children.len() == others.len(),
        forall|k: int|
            0 <= k < children.len() ==> edited(#[trigger] children[k], others[k], at, value),
        at is Empty ==> unquoted(name),
    ensures
        ({
            let (n, e) = content_at(s, i, named, start, raw, children)->0;
            let mid = field_text(at, name, value);
            content_at(replaced(s, at, mid), i, named, start, raw, others) matches Some((m, end))
                && end == e + mid.len() - (at.to() - at.from()) && edited(n, m, at, value)
        }),
    decreases s.len() - i, 2int,
{
    let mid = field_text(at, name, value);
    let t = replaced(s, at, mid);
    let (child, to) = element_at(s, i)->0;
    let more = children.push(child);
    lemma_content_read(s, to, named, start, raw, more);
    assert(more[children.len() as int] == child);
    lemma_field_in_element(s, i, at, name);
    lemma_element_end(s, i);
    lemma_element_edited(s, i, at, name, value);
    let (other, reached) = element_at(t, i)->0;
    let rest = others.push(other);
    assert forall|k: int| 0 <= k < more.len() implies edited(
        #[trigger] more[k],
        rest[k],
        at,
        value,
    ) by {
        if k < children.len() {
            assert(more[k] == children[k]);
        }
    }
    lemma_rest_moved(s, to, named, start, raw, more, rest, at, mid, value);
    assert(0 <= i < reached <= t.len()) by {
        lemma_element_end(t, i);
    }
}

/// What stands behind the child that holds the field.
proof fn lemma_rest_moved(
    s: Seq<char>,
    to: int,
    named: Seq<char>,
    start: int,
    raw: Seq<char>,
    children: Seq<Node>,
    others: Seq<Node>,
    at: Span,
    mid: Seq<char>,
    value: Seq<char>,
)
    requires
        s.len() <= usize::MAX,
        at.from() <= at.to() <= to <= s.len(),
        at.from() < to,
        0 <= start <= to,
        children.len() > 0,
        children.len() == others.len(),
        forall|k: int|
            0 <= k < children.len() ==> edited(#[trigger] children[k], others[k], at, value),
        content_at(s, to, named, start, raw, children) is Some,
    ensures
        ({
            let (n, e) = content_at(s, to, named, start, raw, children)->0;
            let d = mid.len() - (at.to() - at.from());
            content_at(replaced(s, at, mid), to + d, named, start, raw, others) matches Some(
                (m, end),
            ) && end == e + d && edited(n, m, at, value)
        }),
{
    let d = mid.len() - (at.to() - at.from());
    lemma_replaced(s, at, mid);
    lemma_content_moved(
        s,
        replaced(s, at, mid),
        at.to() as int,
        d,
        to,
        named,
        start,
        start,
        raw,
        children,
        others,
        at,
        value,
    );
}

/// A child that stands before the one that holds the field.
proof fn lemma_child_stays(
    s: Seq<char>,
    i: int,
    named: Seq<char>,
    start: int,
    raw: Seq<char>,
    children: Seq<Node>,
    at: Span,
    name: Seq<char>,
    value: Seq<char>,
    k: int,
)
    requires
        s.len() <= usize::MAX,
        0 <= start <= i < s.len(),
        step_at(s, i) is Open,
        content_at(s, i, named, start, raw, children) matches Some((n, e)) && children.len() < k
            < n.children.len() && holds(n.children[k], at, name),
    ensures
        ({
            let (child, to) = element_at(s, i)->0;
            let t = replaced(s, at, field_text(at, name, value));
            &&& i < to <= s.len()
            &&& to <= t.len()
            &&& step_at(t, i) is Open
            &&& element_at(t, i) == element_at(s, i)
            &&& edited(child, child, at, value)
        }),
{
    let (child, to) = element_at(s, i)->0;
    let mid = field_text(at, name, value);
    let t = replaced(s, at, mid);
    let p = at.from() as int;
    lemma_field_in_content(s, to, named, start, raw, children.push(child), at, name, k);
    lemma_content_end(s, to, named, start, raw, children.push(child));
    lemma_replaced(s, at, mid);
    lemma_opening(s, i);
    lemma_open_stays(s, t, p, i);
    lemma_element_stays(s, t, p, i);
    assert forall|x: Seq<char>| !#[trigger] holds(child, at, x) by {
        if holds(child, at, x) {
            lemma_field_in_element(s, i, at, x);
        }
    }
    lemma_same_is_edited(child, at, value);
}

proof fn lemma_content_edited(
    s: Seq<char>,
    i: int,
    named: Seq<char>,
    start: int,
    raw: Seq<char>,
    children: Seq<Node>,
    others: Seq<Node>,
    at: Span,
    name: Seq<char>,
    value: Seq<char>,
    k: int,
)
    requires
        s.len() <= usize::MAX,
        0 <= start <= i,
        content_at(s, i, named, start, raw, children) matches Some((n, e)) && children.len() <= k
            < n.children.len() && holds(n.children[k], at, name),
        children.len() == others.len(),
        forall|k: int|
            0 <= k < children.len() ==> edited(#[trigger] children[k], others[k], at, value),
        at is Empty ==> unquoted(name),
    ensures
        ({
            let (n, e) = content_at(s, i, named, start, raw, children)->0;
            let mid = field_text(at, name, value);
            content_at(replaced(s, at, mid), i, named, start, raw, others) matches Some((m, end))
                && end == e + mid.len() - (at.to() - at.from()) && edited(n, m, at, value)
        }),
    decreases s.len() - i, 3int,
{
    let (n, e) = content_at(s, i, named, start, raw, children)->0;
    let mid = field_text(at, name, value);
    let t = replaced(s, at, mid);
    let p = at.from() as int;
    lemma_step(s, i);
    lemma_field_in_content(s, i, named, start, raw, children, at, name, k);
    lemma_content_end(s, i, named, start, raw, children);
    lemma_replaced(s, at, mid);
    match step_at(s, i) {
        Step::Aside { to } => {
            lemma_field_in_content(s, to, named, start, raw, children, at, name, k);
            lemma_step_stays(s, t, p, i);
            lemma_content_edited(
                s,
                to,
                named,
                start,
                raw,
                children,
                others,
                at,
                name,
                value,
                k,
            );
        },
        Step::Text { to } => {
            let more = raw + s.subrange(i, to);
            lemma_field_in_content(s, to, named, start, more, children, at, name, k);
            lemma_step_stays(s, t, p, i);
            assert(t.subrange(i, to) =~= s.subrange(i, to));
            lemma_content_edited(
                s,
                to,
                named,
                start,
                more,
                children,
                others,
                at,
                name,
                value,
                k,
            );
        },
        Step::Open => {
            if k == children.len() {
                lemma_child_edited(
                    s,
                    i,
                    named,
                    start,
                    raw,
                    children,
                    others,
                    at,
                    name,
                    value,
                );
            } else {
                let (child, to) = element_at(s, i)->0;
                lemma_child_stays(s, i, named, start, raw, children, at, name, value, k);
                lemma_content_edited(
                    s,
                    to,
                    named,
                    start,
                    raw,
                    children.push(child),
                    others.push(child),
                    at,
                    name,
                    value,
                    k,
                );
            }
        },
        _ => {},
    }
}

/// A field stands in the document, inside its root.
proof fn lemma_field_in_document(s: Seq<char>, i: int, at: Span, name: Seq<char>)
    requires
        s.len() <= usize::MAX,
        root_at(s, i) matches Some(root) && root.children.len() > 0 && holds(root, at, name),
    ensures
        0 <= i < at.from() <= at.to() < s.len(),
    decreases s.len() - i,
{
    lemma_step(s, i);
    match step_at(s, i) {
        Step::Aside { to } => {
            lemma_field_in_document(s, to, at, name);
        },
        Step::Text { to } => {
            lemma_field_in_document(s, to, at, name);
        },
        Step::Open => {
            lemma_opening(s, i);
            let (n, e) = element_at(s, i)->0;
            let close = tag_end(s, i + 1, None);
            let named = s.subrange(i + 1, name_end(s, i + 1));
            assert(s[close - 1] != '/');
            let k = choose|k: int|
                0 <= k < n.children.len() && holds(#[trigger] n.children[k], at, name);
            lemma_content_read(s, close + 1, named, close + 1, Seq::empty(), Seq::empty());
            lemma_field_in_content(
                s,
                close + 1,
                named,
                close + 1,
                Seq::empty(),
                Seq::empty(),
                at,
                name,
                k,
            );
            lemma_field_before_close(
                s,
                close + 1,
                named,
                close + 1,
                Seq::empty(),
                Seq::empty(),
                at,
                name,
                k,
            );
        },
        _ => {},
    }
}

/// A field stands before the closing tag of what holds it.
proof fn lemma_field_before_close(
    s: Seq<char>,
    i: int,
    named: Seq<char>,
    start: int,
    raw: Seq<char>,
    children: Seq<Node>,
    at: Span,
    name: Seq<char>,
    k: int,
)
    requires
        s.len() <= usize::MAX,
        0 <= start <= i,
        content_at(s, i, named, start, raw, children) matches Some((n, e)) && children.len() <= k
            < n.children.len() && holds(n.children[k], at, name),
    ensures
        at.to() < (content_at(s, i, named, start, raw, children)->0).1,
    decreases s.len() - i,
{
    lemma_step(s, i);
    match step_at(s, i) {
        Step::Aside { to } => {
            lemma_field_before_close(s, to, named, start, raw, children, at, name, k);
        },
        Step::Text { to } => {
            lemma_field_before_close(
                s,
                to,
                named,
                start,
                raw + s.subrange(i, to),
                children,
                at,
                name,
                k,
            );
        },
        Step::Open => {
            let (child, to) = element_at(s, i)->0;
            let more = children.push(child);
            lemma_content_end(s, to, named, start, raw, more);
            if k == children.len() {
                lemma_content_read(s, to, named, start, raw, more);
                assert(more[k] == child);
                lemma_field_in_element(s, i, at, name);
            } else {
                lemma_field_before_close(s, to, named, start, raw, more, at, name, k);
            }
        },
        _ => {},
    }
}

/// A document reads with a field's new text.
proof fn lemma_root_edited(s: Seq<char>, i: int, at: Span, name: Seq<char>, value: Seq<char>)
    requires
        s.len() <= usize::MAX,
        root_at(s, i) matches Some(root) && root.children.len() > 0 && holds(root, at, name),
        at is Empty ==> unquoted(name),
    ensures
        root_at(replaced(s, at, field_text(at, name, value)), i) matches Some(m) && edited(
            root_at(s, i)->0,
            m,
            at,
            value,
        ),
    decreases s.len() - i,
{
    let mid = field_text(at, name, value);
    let t = replaced(s, at, mid);
    lemma_step(s, i);
    lemma_field_in_document(s, i, at, name);
    lemma_replaced(s, at, mid);
    match step_at(s, i) {
        Step::Aside { to } => {
            lemma_field_in_document(s, to, at, name);
            lemma_step_stays(s, t, at.from() as int, i);
            lemma_root_edited(s, to, at, name, value);
        },
        Step::Text { to } => {
            lemma_field_in_document(s, to, at, name);
            lemma_step_stays(s, t, at.from() as int, i);
            lemma_root_edited(s, to, at, name, value);
        },
        Step::Open => {
            lemma_element_edited(s, i, at, name, value);
        },
        _ => {},
    }
}

/// Whether fields are the same but for the value of the one at `at`, and but
/// for where those stand that stood behind it.
pub open spec fn leaves_edited(
    a: Seq<LeafView>,
    b: Seq<LeafView>,
    at: Span,
    value: Seq<char>,
) -> bool {
    &&& a.len() == b.len()
    &&& forall|j: int|
        0 <= j < a.len() ==> {
            &&& (#[trigger] a[j]).label == b[j].label
            &&& a[j].name == b[j].name
            &&& b[j].value == if a[j].span == at {
                trim_of(value)
            } else {
                a[j].value
            }
            &&& a[j].span != at && a[j].span.to() <= at.from() ==> b[j].span == a[j].span
        }
}

proof fn lemma_namesakes_edited(
    a: Seq<Node>,
    b: Seq<Node>,
    name: Seq<char>,
    n: int,
)
    requires
        n <= a.len(),
        a.len() == b.len(),
        forall|k: int| 0 <= k < a.len() ==> (#[trigger] a[k]).name == b[k].name,
    ensures
        namesakes(a, name, n) == namesakes(b, name, n),
    decreases n,
{
    if n > 0 {
        lemma_namesakes_edited(a, b, name, n - 1);
        assert(a[n - 1].name == b[n - 1].name);
    }
}

proof fn lemma_leaves_edited(n: Node, m: Node, label: Seq<char>, at: Span, value: Seq<char>)
    requires
        edited(n, m, at, value),
    ensures
        leaves_edited(leaves_of(n, label), leaves_of(m, label), at, value),
    decreases n, 0int,
{
    if n.children.len() > 0 {
        lemma_leaves_upto_edited(
            n.children,
            m.children,
            Some(label),
            n.children.len() as int,
            at,
            value,
        );
    }
}

proof fn lemma_leaves_upto_edited(
    a: Seq<Node>,
    b: Seq<Node>,
    outer: Option<Seq<char>>,
    k: int,
    at: Span,
    value: Seq<char>,
)
    requires
        a.len() == b.len(),
        forall|k: int| 0 <= k < a.len() ==> edited(#[trigger] a[k], b[k], at, value),
    ensures
        leaves_edited(leaves_upto(a, outer, k), leaves_upto(b, outer, k), at, value),
    decreases a, k,
{
    if 0 < k <= a.len() {
        lemma_leaves_upto_edited(a, b, outer, k - 1, at, value);
        assert forall|j: int| 0 <= j < a.len() implies (#[trigger] a[j]).name == b[j].name by {
            assert(edited(a[j], b[j], at, value));
        }
        assert(edited(a[k - 1], b[k - 1], at, value));
        let name = a[k - 1].name;
        lemma_namesakes_edited(a, b, name, a.len() as int);
        lemma_namesakes_edited(a, b, name, k - 1);
        let label = inside(outer, numbered_of(a, k - 1));
        assert(label == inside(outer, numbered_of(b, k - 1)));
        lemma_leaves_edited(a[k - 1], b[k - 1], label, at, value);
        let x = leaves_upto(a, outer, k - 1);
        let y = leaves_upto(b, outer, k - 1);
        let u = leaves_of(a[k - 1], label);
        let v = leaves_of(b[k - 1], label);
        assert forall|j: int| 0 <= j < (x + u).len() implies {
            &&& (#[trigger] (x + u)[j]).label == (y + v)[j].label
            &&& (x + u)[j].name == (y + v)[j].name
            &&& (y + v)[j].value == if (x + u)[j].span == at {
                trim_of(value)
            } else {
                (x + u)[j].value
            }
            &&& (x + u)[j].span != at && (x + u)[j].span.to() <= at.from() ==> (y + v)[j].span
                == (x + u)[j].span
        } by {
            if j < x.len() {
                assert((x + u)[j] == x[j]);
                assert((y + v)[j] == y[j]);
            } else {
                assert((x + u)[j] == u[j - x.len()]);
                assert((y + v)[j] == v[j - x.len()]);
            }
        }
    }
}

/// A field is held by the element it was found in.
proof fn lemma_leaf_is_held(n: Node, label: Seq<char>, j: int)
    requires
        0 <= j < leaves_of(n, label).len(),
    ensures
        holds(n, leaves_of(n, label)[j].span, leaves_of(n, label)[j].name),
    decreases n, 0int,
{
    if n.children.len() > 0 {
        let k = lemma_leaf_is_held_upto(n.children, Some(label), n.children.len() as int, j);
    }
}

proof fn lemma_leaf_is_held_upto(
    children: Seq<Node>,
    outer: Option<Seq<char>>,
    k: int,
    j: int,
) -> (c: int)
    requires
        0 <= j < leaves_upto(children, outer, k).len(),
    ensures
        0 <= c < children.len(),
        holds(
            children[c],
            leaves_upto(children, outer, k)[j].span,
            leaves_upto(children, outer, k)[j].name,
        ),
    decreases children, k,
{
    let before = leaves_upto(children, outer, k - 1);
    if j < before.len() {
        lemma_leaf_is_held_upto(children, outer, k - 1, j)
    } else {
        let label = inside(outer, numbered_of(children, k - 1));
        lemma_leaf_is_held(children[k - 1], label, j - before.len());
        k - 1
    }
}

/// Whether fields start one behind the other, from `from` on and before `to`.
spec fn apart(leaves: Seq<LeafView>, from: int, to: int) -> bool {
    &&& forall|j: int| 0 <= j < leaves.len() ==> from <= (#[trigger] leaves[j]).span.from() < to
    &&& forall|j: int, k: int|
        0 <= j < k < leaves.len() ==> (#[trigger] leaves[j]).span.from() < (
        #[trigger] leaves[k]).span.from()
    &&& forall|j: int, k: int|
        0 <= j < k < leaves.len() ==> (#[trigger] leaves[j]).span.to() <= (
        #[trigger] leaves[k]).span.from()
    &&& forall|j: int| 0 <= j < leaves.len() ==> (#[trigger] leaves[j]).span.to() <= to
}

proof fn lemma_leaves_apart(n: Node, label: Seq<char>, p: int)
    requires
        nested(n),
        n.span.ends_by(p),
    ensures
        apart(leaves_of(n, label), n.span.from() as int, p),
    decreases n, 0int,
{
    if n.children.len() > 0 {
        lemma_leaves_upto_apart(
            n.children,
            Some(label),
            n.children.len() as int,
            n.span.from() as int,
            n.span.to() as int,
        );
    }
}

proof fn lemma_leaves_upto_apart(
    children: Seq<Node>,
    outer: Option<Seq<char>>,
    k: int,
    from: int,
    to: int,
)
    requires
        k <= children.len(),
        forall|c: int|
            0 <= c < children.len() ==> nested(#[trigger] children[c]) && from
                <= children[c].span.from() && children[c].span.ends_by(to),
        forall|j: int, c: int|
            0 <= j < c < children.len() ==> (#[trigger] children[j]).span.ends_by(
                (#[trigger] children[c]).span.from() as int,
            ),
    ensures
        apart(leaves_upto(children, outer, k), from, to),
        0 <= k < children.len() ==> apart(
            leaves_upto(children, outer, k),
            from,
            children[k].span.from() as int,
        ),
    decreases children, k,
{
    if k > 0 {
        lemma_leaves_upto_apart(children, outer, k - 1, from, to);
        let label = inside(outer, numbered_of(children, k - 1));
        let child = children[k - 1];
        assert(nested(child));
        let x = leaves_upto(children, outer, k - 1);
        let u = leaves_of(child, label);
        lemma_leaves_apart(child, label, to);
        lemma_apart_add(x, u, from, child.span.from() as int, to);
        if k < children.len() {
            let next = children[k].span.from() as int;
            assert(child.span.ends_by(next));
            lemma_leaves_apart(child, label, next);
            lemma_apart_add(x, u, from, child.span.from() as int, next);
        }
    }
}

proof fn lemma_apart_add(x: Seq<LeafView>, u: Seq<LeafView>, from: int, mid: int, to: int)
    requires
        apart(x, from, mid),
        apart(u, mid, to),
        from <= mid <= to,
    ensures
        apart(x + u, from, to),
{
    let all = x + u;
    assert forall|j: int| 0 <= j < all.len() implies from <= (#[trigger] all[j]).span.from() < to
        && all[j].span.to() <= to by {
        if j < x.len() {
            assert(all[j] == x[j]);
        } else {
            assert(all[j] == u[j - x.len()]);
        }
    }
    assert forall|j: int, k: int| 0 <= j < k < all.len() implies (#[trigger] all[j]).span.from() < (
    #[trigger] all[k]).span.from() && all[j].span.to() <= all[k].span.from() by {
        if k < x.len() {
            assert(all[j] == x[j] && all[k] == x[k]);
        } else if j < x.len() {
            assert(all[j] == x[j] && all[k] == u[k - x.len()]);
        } else {
            assert(all[j] == u[j - x.len()] && all[k] == u[k - x.len()]);
        }
    }
}

/// The fields of a document.
pub open spec fn fields_of(s: Seq<char>) -> Seq<LeafView> {
    document_leaves(document_of(s))
}

/// Where one field of a document was written anew, it reads with its new
/// value, and every other field as it did.
pub proof fn an_edited_field_reads_as_set(s: Seq<char>, k: int, value: Seq<char>)
    requires
        s.len() <= usize::MAX,
        0 <= k < fields_of(s).len(),
        fields_of(s)[k].span is Empty ==> unquoted(fields_of(s)[k].name),
    ensures
        ({
            let a = fields_of(s);
            let b = fields_of(
                replaced(s, a[k].span, field_text(a[k].span, a[k].name, value)),
            );
            &&& 0 < a[k].span.from() <= a[k].span.to() < s.len()
            &&& a.len() == b.len()
            &&& forall|j: int|
                0 <= j < a.len() ==> (#[trigger] b[j]).label == a[j].label && b[j].name == a[j].name
                    && b[j].value == if j == k {
                    trim_of(value)
                } else {
                    a[j].value
                }
            &&& forall|j: int| 0 <= j < k ==> (#[trigger] b[j]).span == a[j].span
        }),
{
    let a = fields_of(s);
    let at = a[k].span;
    let name = a[k].name;
    let root = document_of(s)->0;
    let n = root.children.len() as int;
    elements_are_nested(s);
    lemma_leaves_upto_apart(
        root.children,
        None,
        n,
        root.span.from() as int,
        root.span.to() as int,
    );
    let c = lemma_leaf_is_held_upto(root.children, None, n, k);
    assert(holds(root.children[c], at, name));
    assert(holds(root, at, name));
    lemma_field_in_document(s, 0, at, name);
    lemma_root_edited(s, 0, at, name, value);
    let t = replaced(s, at, field_text(at, name, value));
    let other = document_of(t)->0;
    lemma_leaves_upto_edited(root.children, other.children, None, n, at, value);
    let b = fields_of(t);
    assert(leaves_edited(a, b, at, value));
    assert forall|j: int| 0 <= j < a.len() implies (#[trigger] b[j]).label == a[j].label
        && b[j].name == a[j].name && b[j].value == if j == k {
        trim_of(value)
    } else {
        a[j].value
    } by {
        assert(a[j].label == b[j].label);
        if j < k {
            assert(a[j].span.from() < a[k].span.from());
        } else if k < j {
            assert(a[k].span.from() < a[j].span.from());
        }
    }
    assert forall|j: int| 0 <= j < k implies (#[trigger] b[j]).span == a[j].span by {
        assert(a[j].span.from() < a[k].span.from());
        assert(a[j].span.to() <= a[k].span.from());
    }
}

/// How much is written for the first `k` fields, where they changed.
pub open spec fn written_for(
    spans: Seq<(Span, Seq<char>)>,
    new: Seq<(Seq<char>, Seq<char>)>,
    old: Seq<(Seq<char>, Seq<char>)>,
    k: int,
) -> nat
    decreases k,
{
    if k <= 0 {
        0
    } else {
        written_for(spans, new, old, k - 1) + if new[k - 1].1 == old[k - 1].1 {
            0
        } else {
            field_text(spans[k - 1].0, spans[k - 1].1, new[k - 1].1).len()
        }
    }
}

/// What stands behind the fields is not touched.
proof fn lemma_spliced_front(
    a: Seq<char>,
    b: Seq<char>,
    spans: Seq<(Span, Seq<char>)>,
    new: Seq<(Seq<char>, Seq<char>)>,
    old: Seq<(Seq<char>, Seq<char>)>,
    k: int,
)
    requires
        forall|j: int|
            0 <= j < k ==> (#[trigger] spans[j]).0.from() <= spans[j].0.to() <= a.len(),
    ensures
        spliced(a + b, spans, new, old, k) == spliced(a, spans, new, old, k) + b,
    decreases k,
{
    if k > 0 {
        if new[k - 1].1 == old[k - 1].1 {
            lemma_spliced_front(a, b, spans, new, old, k - 1);
        } else {
            let at = spans[k - 1].0;
            assert((a + b).take(at.from() as int) =~= a.take(at.from() as int));
            assert((a + b).skip(at.to() as int) =~= a.skip(at.to() as int) + b);
            let front = spliced(a.take(at.from() as int), spans, new, old, k - 1);
            let text = field_text(at, spans[k - 1].1, new[k - 1].1);
            assert(front + text + (a.skip(at.to() as int) + b) =~= front + text + a.skip(
                at.to() as int,
            ) + b);
        }
    }
}

/// The last field that changed can be written first.
proof fn lemma_last_first(
    s: Seq<char>,
    spans: Seq<(Span, Seq<char>)>,
    new: Seq<(Seq<char>, Seq<char>)>,
    old: Seq<(Seq<char>, Seq<char>)>,
    k: int,
)
    requires
        0 < k,
        new[k - 1].1 != old[k - 1].1,
        spans[k - 1].0.from() <= spans[k - 1].0.to() <= s.len(),
        forall|j: int|
            0 <= j < k - 1 ==> (#[trigger] spans[j]).0.from() <= spans[j].0.to() <= spans[k
                - 1].0.from(),
    ensures
        spliced(s, spans, new, old, k) == spliced(
            replaced(s, spans[k - 1].0, field_text(spans[k - 1].0, spans[k - 1].1, new[k - 1].1)),
            spans,
            new,
            old,
            k - 1,
        ),
{
    let at = spans[k - 1].0;
    let text = field_text(at, spans[k - 1].1, new[k - 1].1);
    let front = s.take(at.from() as int);
    let back = s.skip(at.to() as int);
    lemma_spliced_front(front, text + back, spans, new, old, k - 1);
    assert(front + (text + back) =~= replaced(s, at, text));
    let done = spliced(front, spans, new, old, k - 1);
    assert(done + (text + back) =~= done + text + back);
}

/// Where fields of a document were written anew, each reads with its new
/// value, and every other field as it did.
pub proof fn edited_fields_read_as_set(
    s: Seq<char>,
    spans: Seq<(Span, Seq<char>)>,
    new: Seq<(Seq<char>, Seq<char>)>,
    old: Seq<(Seq<char>, Seq<char>)>,
    k: int,
)
    requires
        s.len() + written_for(spans, new, old, k) <= usize::MAX,
        0 <= k <= fields_of(s).len(),
        forall|j: int|
            0 <= j < k ==> #[trigger] spans[j] == (fields_of(s)[j].span, fields_of(s)[j].name),
        forall|j: int|
            0 <= j < k && (#[trigger] new[j]).1 != old[j].1 && spans[j].0 is Empty ==> unquoted(
                spans[j].1,
            ),
    ensures
        ({
            let t = spliced(s, spans, new, old, k);
            let a = fields_of(s);
            let b = fields_of(t);
            &&& a.len() == b.len()
            &&& forall|j: int|
                0 <= j < a.len() ==> (#[trigger] b[j]).label == a[j].label && b[j].value == if j < k
                    && new[j].1 != old[j].1 {
                    trim_of(new[j].1)
                } else {
                    a[j].value
                }
            &&& s.len() > 0 ==> t.len() > 0 && t[0] == s[0] && t.last() == s.last()
        }),
    decreases k,
{
    let a = fields_of(s);
    if k > 0 {
        if new[k - 1].1 == old[k - 1].1 {
            edited_fields_read_as_set(s, spans, new, old, k - 1);
        } else {
            fields_stand_in_the_document(s);
            let places = leaf_places(a);
            assert(spans[k - 1] == places[k - 1]);
            assert forall|j: int| 0 <= j < k - 1 implies (#[trigger] spans[j]).0.from()
                <= spans[j].0.to() <= spans[k - 1].0.from() by {
                assert(spans[j] == places[j]);
            }
            assert(new[k - 1].1 != old[k - 1].1);
            an_edited_field_reads_as_set(s, k - 1, new[k - 1].1);
            let (at, name) = spans[k - 1];
            let text = field_text(at, name, new[k - 1].1);
            let next = replaced(s, at, text);
            lemma_last_first(s, spans, new, old, k);
            let mid = fields_of(next);
            assert forall|j: int| 0 <= j < k - 1 implies #[trigger] spans[j] == (
                mid[j].span,
                mid[j].name,
            ) by {
                assert(mid[j].span == a[j].span);
                assert(spans[j] == (a[j].span, a[j].name));
            }
            edited_fields_read_as_set(next, spans, new, old, k - 1);
            let b = fields_of(spliced(s, spans, new, old, k));
            assert forall|j: int| 0 <= j < a.len() implies (#[trigger] b[j]).label == a[j].label
                && b[j].value == if j < k && new[j].1 != old[j].1 {
                trim_of(new[j].1)
            } else {
                a[j].value
            } by {
                assert(mid[j].label == a[j].label);
            }
            assert(next[0] == s[0]);
            assert(next.last() == s.last());
        }
    }
}

} // verus!
