//! A reader of the XML that recorders write: elements, their text, and where
//! each stands, so that one can be changed and the rest left as it was.

use crate::meta::{
    cdata_end, cdata_start, find_of, find_text, lemma_find, unescape_chars, unescape_of,
};
use crate::text::{chars, extend, is_white, part, same_chars, string, trim_chars, trim_of, white};
use vstd::prelude::*;

verus! {

/// Where an element's text stands, in characters of the document.
#[derive(Debug, Clone, Copy, PartialEq, Eq, Structural)]
pub enum Span {
    /// From the end of its opening tag up to its closing one.
    Content { start: usize, end: usize },
    /// The whole of an element written `<NAME/>`.
    Empty { start: usize, end: usize },
}

impl Span {
    pub open spec fn from(self) -> usize {
        match self {
            Span::Content { start, end } => start,
            Span::Empty { start, end } => start,
        }
    }

    pub open spec fn to(self) -> usize {
        match self {
            Span::Content { start, end } => end,
            Span::Empty { start, end } => end,
        }
    }

    /// Whether its element ends at `p` or before: a closing tag follows the
    /// text of one that has any.
    pub open spec fn ends_by(self, p: int) -> bool {
        match self {
            Span::Content { start, end } => end < p,
            Span::Empty { start, end } => end <= p,
        }
    }

    /// Where it starts and ends.
    pub fn ends(&self) -> (r: (usize, usize))
        ensures
            r == (self.from(), self.to()),
    {
        match self {
            Span::Content { start, end } => (*start, *end),
            Span::Empty { start, end } => (*start, *end),
        }
    }
}

/// An element: its name, the text directly in it, and the elements in it.
#[derive(Debug)]
pub struct Element {
    pub name: String,
    pub text: String,
    pub children: Vec<Element>,
    pub span: Span,
}

/// What an [`Element`] stands for.
pub struct Node {
    pub name: Seq<char>,
    pub text: Seq<char>,
    pub children: Seq<Node>,
    pub span: Span,
}

/// Whether `e` stands for `n`.
pub open spec fn shows(e: Element, n: Node) -> bool
    decreases e,
{
    &&& e.name@ == n.name
    &&& e.text@ == n.text
    &&& e.span == n.span
    &&& e.children@.len() == n.children.len()
    &&& forall|i: int|
        0 <= i < e.children@.len() ==> shows(#[trigger] e.children@[i], n.children[i])
}

pub open spec fn shows_maybe(e: Option<Element>, n: Option<Node>) -> bool {
    match (e, n) {
        (Some(e), Some(n)) => shows(e, n),
        (None, None) => true,
        _ => false,
    }
}

impl Element {
    /// The first element in this one with this name.
    pub fn child(&self, name: &str) -> (r: Option<&Element>)
        ensures
            match r {
                Some(c) => exists|i: int|
                    0 <= i < self.children@.len() && *c == #[trigger] self.children@[i]
                        && self.children@[i].name@ == name@ && forall|j: int|
                        0 <= j < i ==> (#[trigger] self.children@[j]).name@ != name@,
                None => forall|i: int|
                    0 <= i < self.children@.len() ==> (#[trigger] self.children@[i]).name@
                        != name@,
            },
    {
        let mut i: usize = 0;
        while i < self.children.len()
            invariant
                i <= self.children@.len(),
                forall|j: int| 0 <= j < i ==> (#[trigger] self.children@[j]).name@ != name@,
            decreases self.children@.len() - i,
        {
            if crate::text::same(self.children[i].name.as_str(), name) {
                assert(self.children@[i as int].name@ == name@);
                return Some(&self.children[i]);
            }
            i = i + 1;
        }
        None
    }
}

/// Whether `pattern` stands in `s` at `i`.
pub open spec fn stands(s: Seq<char>, pattern: Seq<char>, i: int) -> bool {
    0 <= i && i + pattern.len() <= s.len() && s.subrange(i, i + pattern.len()) == pattern
}

fn stands_at(v: &[char], pattern: &[char], i: usize) -> (r: bool)
    requires
        i <= v@.len(),
    ensures
        r == stands(v@, pattern@, i as int),
{
    let len: usize = v.len();
    if pattern.len() > len - i {
        return false;
    }
    let n: usize = pattern.len();
    let here = part(v, i, i + n);
    same_chars(here.as_slice(), pattern)
}

/// Where the tag whose inside starts at `i` ends: at the next `>` that
/// stands in no quotes.
pub open spec fn tag_end(s: Seq<char>, i: int, quote: Option<char>) -> int
    decreases s.len() - i,
{
    if i < 0 || i >= s.len() {
        s.len() as int
    } else {
        match quote {
            Some(q) => tag_end(
                s,
                i + 1,
                if s[i] == q {
                    None
                } else {
                    quote
                },
            ),
            None => if s[i] == '>' {
                i
            } else if s[i] == '"' || s[i] == '\'' {
                tag_end(s, i + 1, Some(s[i]))
            } else {
                tag_end(s, i + 1, None)
            },
        }
    }
}

fn find_tag_end(v: &[char], from: usize) -> (r: usize)
    requires
        from <= v@.len(),
    ensures
        r == tag_end(v@, from as int, None),
        from <= r <= v@.len(),
{
    let mut i: usize = from;
    let mut quote: Option<char> = None;
    while i < v.len()
        invariant
            from <= i <= v@.len(),
            tag_end(v@, from as int, None) == tag_end(v@, i as int, quote),
        decreases v@.len() - i,
    {
        let c = v[i];
        match quote {
            Some(q) => {
                if c == q {
                    quote = None;
                }
            },
            None => {
                if c == '>' {
                    return i;
                }
                if c == '"' || c == '\'' {
                    quote = Some(c);
                }
            },
        }
        i = i + 1;
    }
    i
}

/// Where the name that starts at `i` ends.
pub open spec fn name_end(s: Seq<char>, i: int) -> int
    decreases s.len() - i,
{
    if i < 0 || i >= s.len() || white(s[i]) || s[i] == '/' || s[i] == '>' {
        i
    } else {
        name_end(s, i + 1)
    }
}

fn find_name_end(v: &[char], from: usize) -> (r: usize)
    requires
        from <= v@.len(),
    ensures
        r == name_end(v@, from as int),
        from <= r <= v@.len(),
{
    let mut i: usize = from;
    while i < v.len() && !is_white(v[i]) && v[i] != '/' && v[i] != '>'
        invariant
            from <= i <= v@.len(),
            name_end(v@, from as int) == name_end(v@, i as int),
        decreases v@.len() - i,
    {
        i = i + 1;
    }
    i
}

/// What stands at a place in an element's content.
pub enum Step {
    /// The closing tag of an element, with its name, ending before `to`.
    Close { name: Seq<char>, to: int },
    /// A comment, an instruction or a declaration.
    Aside { to: int },
    /// Text, of a CDATA section or a character.
    Text { to: int },
    /// The opening tag of an element.
    Open,
    /// Markup that does not end.
    Cut,
}

/// Up to the end of the next `pattern`, from `i`.
pub open spec fn past(s: Seq<char>, pattern: Seq<char>, i: int) -> Option<int> {
    let at = find_of(s, pattern, i);
    if at > s.len() {
        None
    } else {
        Some(at + pattern.len())
    }
}

pub open spec fn step_at(s: Seq<char>, i: int) -> Step {
    if s[i] != '<' {
        Step::Text { to: i + 1 }
    } else if stands(s, cdata_start(), i) {
        match past(s, cdata_end(), i + 9) {
            Some(to) => Step::Text { to },
            None => Step::Cut,
        }
    } else if stands(s, seq!['<', '!', '-', '-'], i) {
        match past(s, seq!['-', '-', '>'], i + 4) {
            Some(to) => Step::Aside { to },
            None => Step::Cut,
        }
    } else if stands(s, seq!['<', '?'], i) {
        match past(s, seq!['?', '>'], i + 2) {
            Some(to) => Step::Aside { to },
            None => Step::Cut,
        }
    } else if stands(s, seq!['<', '!'], i) {
        let end = tag_end(s, i + 2, None);
        if end < s.len() {
            Step::Aside { to: end + 1 }
        } else {
            Step::Cut
        }
    } else if stands(s, seq!['<', '/'], i) {
        let end = tag_end(s, i + 2, None);
        if end < s.len() {
            Step::Close { name: trim_of(s.subrange(i + 2, end)), to: end + 1 }
        } else {
            Step::Cut
        }
    } else {
        Step::Open
    }
}

/// What stands at a place in an element's content, to act on.
enum Found {
    Close(Vec<char>, usize),
    Aside(usize),
    Text(usize),
    Open,
    Cut,
}

impl Found {
    spec fn is_step(self, s: Step) -> bool {
        match (self, s) {
            (Found::Close(n, t), Step::Close { name, to }) => n@ == name && t == to,
            (Found::Aside(t), Step::Aside { to }) => t == to,
            (Found::Text(t), Step::Text { to }) => t == to,
            (Found::Open, Step::Open) => true,
            (Found::Cut, Step::Cut) => true,
            _ => false,
        }
    }
}

pub proof fn lemma_tag_end(s: Seq<char>, i: int, quote: Option<char>)
    requires
        0 <= i <= s.len(),
    ensures
        i <= tag_end(s, i, quote) <= s.len(),
    decreases s.len() - i,
{
    if i < s.len() {
        lemma_tag_end(s, i + 1, None);
        lemma_tag_end(s, i + 1, quote);
        lemma_tag_end(s, i + 1, Some(s[i]));
    }
}

/// A step goes on, and stays in the document.
pub proof fn lemma_step(s: Seq<char>, i: int)
    requires
        0 <= i < s.len(),
    ensures
        step_at(s, i) matches Step::Close { name, to } ==> i < to <= s.len(),
        step_at(s, i) matches Step::Aside { to } ==> i < to <= s.len(),
        step_at(s, i) matches Step::Text { to } ==> i < to <= s.len(),
{
    lemma_find(s, cdata_end(), i + 9);
    lemma_find(s, seq!['-', '-', '>'], i + 4);
    lemma_find(s, seq!['?', '>'], i + 2);
    if i + 2 <= s.len() {
        lemma_tag_end(s, i + 2, None);
    }
}

fn find_past(v: &[char], pattern: &[char], from: usize) -> (r: Option<usize>)
    requires
        from <= v@.len(),
    ensures
        match r {
            Some(to) => past(v@, pattern@, from as int) == Some(to as int) && to <= v@.len(),
            None => past(v@, pattern@, from as int) is None,
        },
{
    match find_text(v, pattern, from) {
        Some(at) => {
            let len: usize = v.len();
            assert(at + pattern@.len() <= len);
            let n: usize = pattern.len();
            Some(at + n)
        },
        None => None,
    }
}

fn step(v: &[char], i: usize) -> (r: Found)
    requires
        i < v@.len(),
    ensures
        r.is_step(step_at(v@, i as int)),
{
    if v[i] != '<' {
        return Found::Text(i + 1);
    }
    let len: usize = v.len();
    let cdata: [char; 9] = ['<', '!', '[', 'C', 'D', 'A', 'T', 'A', '['];
    let cdata_close: [char; 3] = [']', ']', '>'];
    let comment: [char; 4] = ['<', '!', '-', '-'];
    let comment_close: [char; 3] = ['-', '-', '>'];
    let instruction: [char; 2] = ['<', '?'];
    let instruction_close: [char; 2] = ['?', '>'];
    let declaration: [char; 2] = ['<', '!'];
    let close: [char; 2] = ['<', '/'];
    proof {
        assert(cdata@ =~= cdata_start());
        assert(cdata_close@ =~= cdata_end());
        assert(comment@ =~= seq!['<', '!', '-', '-']);
        assert(comment_close@ =~= seq!['-', '-', '>']);
        assert(instruction@ =~= seq!['<', '?']);
        assert(instruction_close@ =~= seq!['?', '>']);
        assert(declaration@ =~= seq!['<', '!']);
        assert(close@ =~= seq!['<', '/']);
    }
    if stands_at(v, cdata.as_slice(), i) {
        assert(i + 9 <= len);
        return match find_past(v, cdata_close.as_slice(), i + 9) {
            Some(to) => Found::Text(to),
            None => Found::Cut,
        };
    }
    if stands_at(v, comment.as_slice(), i) {
        assert(i + 4 <= len);
        return match find_past(v, comment_close.as_slice(), i + 4) {
            Some(to) => Found::Aside(to),
            None => Found::Cut,
        };
    }
    if stands_at(v, instruction.as_slice(), i) {
        assert(i + 2 <= len);
        return match find_past(v, instruction_close.as_slice(), i + 2) {
            Some(to) => Found::Aside(to),
            None => Found::Cut,
        };
    }
    if stands_at(v, declaration.as_slice(), i) {
        assert(i + 2 <= len);
        let end: usize = find_tag_end(v, i + 2);
        return if end < len {
            Found::Aside(end + 1)
        } else {
            Found::Cut
        };
    }
    if stands_at(v, close.as_slice(), i) {
        assert(i + 2 <= len);
        let end: usize = find_tag_end(v, i + 2);
        return if end < len {
            let inside = part(v, i + 2, end);
            Found::Close(trim_chars(inside.as_slice()), end + 1)
        } else {
            Found::Cut
        };
    }
    Found::Open
}

/// The element whose opening tag starts at `i`, and where it ends.
pub open spec fn element_at(s: Seq<char>, i: int) -> Option<(Node, int)>
    decreases s.len() - i, 0int,
    via element_ends
{
    let to = name_end(s, i + 1);
    let end = tag_end(s, i + 1, None);
    if !(0 <= i < s.len()) || to == i + 1 || end >= s.len() {
        None
    } else {
        let name = s.subrange(i + 1, to);
        if s[end - 1] == '/' {
            Some(
                (
                    Node {
                        name,
                        text: Seq::empty(),
                        children: Seq::empty(),
                        span: Span::Empty { start: i as usize, end: (end + 1) as usize },
                    },
                    end + 1,
                ),
            )
        } else {
            content_at(s, end + 1, name, end + 1, Seq::empty(), Seq::empty())
        }
    }
}

/// The element of this name whose content starts at `start`, where its
/// content up to `i` has given this text and these children.
pub open spec fn content_at(
    s: Seq<char>,
    i: int,
    name: Seq<char>,
    start: int,
    raw: Seq<char>,
    children: Seq<Node>,
) -> Option<(Node, int)>
    decreases s.len() - i, 1int,
    via content_ends
{
    if !(0 <= i < s.len()) {
        None
    } else {
        match step_at(s, i) {
            Step::Close { name: closed, to } => if closed == name {
                Some(
                    (
                        Node {
                            name,
                            text: unescape_of(raw),
                            children,
                            span: Span::Content { start: start as usize, end: i as usize },
                        },
                        to,
                    ),
                )
            } else {
                None
            },
            Step::Aside { to } => content_at(s, to, name, start, raw, children),
            Step::Text { to } => content_at(
                s,
                to,
                name,
                start,
                raw + s.subrange(i, to),
                children,
            ),
            Step::Open => match element_at(s, i) {
                Some((child, to)) => if i < to <= s.len() {
                    content_at(s, to, name, start, raw, children.push(child))
                } else {
                    None
                },
                None => None,
            },
            Step::Cut => None,
        }
    }
}

#[via_fn]
proof fn element_ends(s: Seq<char>, i: int) {
    if 0 <= i < s.len() {
        lemma_tag_end(s, i + 1, None);
    }
}

#[via_fn]
proof fn content_ends(
    s: Seq<char>,
    i: int,
    name: Seq<char>,
    start: int,
    raw: Seq<char>,
    children: Seq<Node>,
) {
    if 0 <= i < s.len() {
        lemma_step(s, i);
    }
}

/// The root element of a document, past what may stand before it.
pub open spec fn root_at(s: Seq<char>, i: int) -> Option<Node>
    decreases s.len() - i,
    via root_ends
{
    if !(0 <= i < s.len()) {
        None
    } else {
        match step_at(s, i) {
            Step::Aside { to } => root_at(s, to),
            Step::Text { to } => root_at(s, to),
            Step::Open => match element_at(s, i) {
                Some((root, _)) => Some(root),
                None => None,
            },
            _ => None,
        }
    }
}

#[via_fn]
proof fn root_ends(s: Seq<char>, i: int) {
    if 0 <= i < s.len() {
        lemma_step(s, i);
    }
}

/// The root element of a document, where it reads as one.
pub open spec fn document_of(s: Seq<char>) -> Option<Node> {
    root_at(s, 0)
}

/// Whether each element in `n` stands inside it, one after the other.
pub open spec fn nested(n: Node) -> bool
    decreases n,
{
    &&& n.span.from() <= n.span.to()
    &&& n.span is Empty ==> n.span.from() < n.span.to()
    &&& forall|k: int|
        0 <= k < n.children.len() ==> nested(#[trigger] n.children[k]) && n.span.from()
            <= n.children[k].span.from() && n.children[k].span.ends_by(n.span.to() as int)
    &&& forall|j: int, k: int|
        0 <= j < k < n.children.len() ==> (#[trigger] n.children[j]).span.ends_by(
            (#[trigger] n.children[k]).span.from() as int,
        )
}

proof fn lemma_element(s: Seq<char>, i: int)
    requires
        s.len() <= usize::MAX,
    ensures
        element_at(s, i) matches Some((n, to)) ==> nested(n) && i <= n.span.from()
            && n.span.ends_by(to) && i < to <= s.len(),
    decreases s.len() - i, 0int,
{
    if 0 <= i < s.len() {
        lemma_tag_end(s, i + 1, None);
        let end = tag_end(s, i + 1, None);
        let to = name_end(s, i + 1);
        if to != i + 1 && end < s.len() && s[end - 1] != '/' {
            lemma_content(
                s,
                end + 1,
                s.subrange(i + 1, to),
                end + 1,
                Seq::empty(),
                Seq::empty(),
            );
        }
    }
}

proof fn lemma_content(
    s: Seq<char>,
    i: int,
    name: Seq<char>,
    start: int,
    raw: Seq<char>,
    children: Seq<Node>,
)
    requires
        s.len() <= usize::MAX,
        0 <= start <= i <= s.len(),
        forall|k: int|
            0 <= k < children.len() ==> nested(#[trigger] children[k]) && start
                <= children[k].span.from() && children[k].span.ends_by(i),
        forall|j: int, k: int|
            0 <= j < k < children.len() ==> (#[trigger] children[j]).span.ends_by(
                (#[trigger] children[k]).span.from() as int,
            ),
    ensures
        content_at(s, i, name, start, raw, children) matches Some((n, to)) ==> nested(n) && start
            == n.span.from() && n.span.ends_by(to) && i < to <= s.len(),
    decreases s.len() - i, 1int,
{
    if i < s.len() {
        lemma_step(s, i);
        match step_at(s, i) {
            Step::Aside { to } => {
                lemma_content(s, to, name, start, raw, children);
            },
            Step::Text { to } => {
                lemma_content(s, to, name, start, raw + s.subrange(i, to), children);
            },
            Step::Open => {
                lemma_element(s, i);
                match element_at(s, i) {
                    Some((child, to)) => {
                        let more = children.push(child);
                        assert forall|k: int| 0 <= k < more.len() implies nested(
                            #[trigger] more[k],
                        ) && start <= more[k].span.from() && more[k].span.ends_by(to) by {
                            if k < children.len() {
                                assert(more[k] == children[k]);
                            }
                        }
                        assert forall|j: int, k: int| 0 <= j < k < more.len() implies (
                        #[trigger] more[j]).span.ends_by(
                            (#[trigger] more[k]).span.from() as int,
                        ) by {
                            assert(more[j] == children[j]);
                            if k < children.len() {
                                assert(more[k] == children[k]);
                            }
                        }
                        lemma_content(s, to, name, start, raw, more);
                    },
                    None => {},
                }
            },
            _ => {},
        }
    }
}

/// Every element of a document stands inside the one around it, and after
/// the one before it.
pub proof fn elements_are_nested(s: Seq<char>)
    requires
        s.len() <= usize::MAX,
    ensures
        document_of(s) matches Some(root) ==> nested(root) && root.span.to() <= s.len(),
{
    lemma_root(s, 0);
}

proof fn lemma_root(s: Seq<char>, i: int)
    requires
        s.len() <= usize::MAX,
    ensures
        root_at(s, i) matches Some(root) ==> nested(root) && root.span.to() <= s.len(),
    decreases s.len() - i,
{
    if 0 <= i < s.len() {
        lemma_step(s, i);
        lemma_element(s, i);
        match step_at(s, i) {
            Step::Aside { to } => {
                lemma_root(s, to);
            },
            Step::Text { to } => {
                lemma_root(s, to);
            },
            _ => {},
        }
    }
}

fn parse_element(v: &[char], i: usize) -> (r: Option<(Element, usize)>)
    requires
        i < v@.len(),
    ensures
        match (r, element_at(v@, i as int)) {
            (Some((e, t)), Some((n, to))) => shows(e, n) && t == to && i < t <= v@.len(),
            (None, None) => true,
            _ => false,
        },
    decreases v@.len() - i, 0int,
{
    let len: usize = v.len();
    proof {
        lemma_element(v@, i as int);
    }
    let to: usize = find_name_end(v, i + 1);
    let end: usize = find_tag_end(v, i + 1);
    if to == i + 1 || end >= len {
        return None;
    }
    let name = part(v, i + 1, to);
    if v[end - 1] == '/' {
        let e = Element {
            name: string(name.as_slice()),
            text: String::new(),
            children: Vec::new(),
            span: Span::Empty { start: i, end: end + 1 },
        };
        assert(e.text@ =~= Seq::<char>::empty());
        return Some((e, end + 1));
    }
    parse_content(v, end + 1, name)
}

fn parse_content(v: &[char], start: usize, name: Vec<char>) -> (r: Option<(Element, usize)>)
    requires
        start <= v@.len(),
    ensures
        match (
            r,
            content_at(v@, start as int, name@, start as int, Seq::empty(), Seq::empty()),
        ) {
            (Some((e, t)), Some((n, to))) => shows(e, n) && t == to && start < t <= v@.len(),
            (None, None) => true,
            _ => false,
        },
    decreases v@.len() - start, 1int,
{
    let len: usize = v.len();
    let mut i: usize = start;
    let mut raw: Vec<char> = Vec::new();
    let mut children: Vec<Element> = Vec::new();
    let ghost mut nodes: Seq<Node> = Seq::empty();
    let ghost all = content_at(v@, start as int, name@, start as int, Seq::empty(), Seq::empty());
    assert(raw@ =~= Seq::<char>::empty());
    while i < len
        invariant
            len == v@.len(),
            start <= i <= len,
            all == content_at(v@, start as int, name@, start as int, Seq::empty(), Seq::empty()),
            content_at(v@, i as int, name@, start as int, raw@, nodes) == all,
            children@.len() == nodes.len(),
            forall|k: int|
                0 <= k < children@.len() ==> shows(#[trigger] children@[k], nodes[k]),
        decreases len - i,
    {
        proof {
            lemma_step(v@, i as int);
        }
        match step(v, i) {
            Found::Close(closed, to) => {
                if !same_chars(closed.as_slice(), name.as_slice()) {
                    return None;
                }
                let text = unescape_chars(raw.as_slice());
                let e = Element {
                    name: string(name.as_slice()),
                    text: string(text.as_slice()),
                    children,
                    span: Span::Content { start, end: i },
                };
                return Some((e, to));
            },
            Found::Aside(to) => {
                i = to;
            },
            Found::Text(to) => {
                let piece = part(v, i, to);
                extend(&mut raw, piece.as_slice());
                i = to;
            },
            Found::Open => {
                match parse_element(v, i) {
                    Some((child, to)) => {
                        let ghost at = i as int;
                        let ghost before = children@;
                        children.push(child);
                        proof {
                            nodes = nodes.push(element_at(v@, at)->Some_0.0);
                            assert forall|k: int| 0 <= k < children@.len() implies shows(
                                #[trigger] children@[k],
                                nodes[k],
                            ) by {
                                if k < before.len() {
                                    assert(children@[k] == before[k]);
                                }
                            }
                        }
                        i = to;
                    },
                    None => {
                        return None;
                    },
                }
            },
            Found::Cut => {
                return None;
            },
        }
    }
    None
}

/// The root element of a document, where it reads as one.
pub fn parse_xml(xml: &str) -> (r: Option<Element>)
    ensures
        shows_maybe(r, document_of(xml@)),
        xml@.len() <= usize::MAX,
{
    let text = chars(xml);
    let v = text.as_slice();
    let len: usize = v.len();
    let mut i: usize = 0;
    while i < len
        invariant
            len == v@.len(),
            v@ == xml@,
            i <= len,
            root_at(v@, 0) == root_at(v@, i as int),
        decreases len - i,
    {
        proof {
            lemma_step(v@, i as int);
        }
        match step(v, i) {
            Found::Aside(to) => {
                i = to;
            },
            Found::Text(to) => {
                i = to;
            },
            Found::Open => {
                return match parse_element(v, i) {
                    Some((root, _)) => Some(root),
                    None => None,
                };
            },
            _ => {
                return None;
            },
        }
    }
    None
}

} // verus!
