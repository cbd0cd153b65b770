//! What a recording says about itself, reduced to what the header shows.

use crate::pattern::Moment;
use crate::rename::is_char;
use crate::text::{
    char_at, chars, digit, extend, is_digit, join_chars, joined, parse_number, parsed, part, runs,
    same, same_chars, split_chars, split_of, string, trim_chars, trim_of,
};
use crate::wav::{first_index, text, text_of, text_view, Bext, BextView, Wav, WavView};
use vstd::prelude::*;
use vstd::utf8::encode_utf8;

verus! {

#[derive(Debug, PartialEq)]
pub struct Meta {
    pub description: Option<String>,
    pub recorder: Option<String>,
    pub start: Option<WallStart>,
}

#[verifier::ext_equal]
pub struct MetaView {
    pub description: Option<Seq<char>>,
    pub recorder: Option<Seq<char>>,
    pub start: Option<WallStartView>,
}

/// Local time at the first sample.
#[derive(Debug, Clone, Copy, PartialEq, Eq, Structural)]
pub enum StartTime {
    /// Samples since midnight, and how many there are to a second.
    Samples { count: u64, rate: u32 },
    /// Seconds since midnight.
    Seconds(u32),
}

#[derive(Debug, PartialEq)]
pub struct WallStart {
    pub date: Option<String>,
    pub time: StartTime,
}

#[verifier::ext_equal]
pub struct WallStartView {
    pub date: Option<Seq<char>>,
    pub time: StartTime,
}

impl View for WallStart {
    type V = WallStartView;

    open spec fn view(&self) -> WallStartView {
        WallStartView { date: text_view(self.date), time: self.time }
    }
}

pub open spec fn start_view(s: Option<WallStart>) -> Option<WallStartView> {
    match s {
        Some(s) => Some(s@),
        None => None,
    }
}

impl View for Meta {
    type V = MetaView;

    open spec fn view(&self) -> MetaView {
        MetaView {
            description: text_view(self.description),
            recorder: text_view(self.recorder),
            start: start_view(self.start),
        }
    }
}

impl Default for Meta {
    fn default() -> (r: Self)
        ensures
            r@ == (MetaView { description: None, recorder: None, start: None }),
    {
        Meta { description: None, recorder: None, start: None }
    }
}

/// Whether `key` is what recorders start their lines for other machines
/// with: a lowercase vendor letter, then an uppercase key.
pub open spec fn machine_key(key: Seq<char>) -> bool {
    &&& 2 <= key.len() <= 16
    &&& 'a' <= key[0] <= 'z'
    &&& forall|i: int|
        1 <= i < key.len() ==> 'A' <= #[trigger] key[i] <= 'Z' || digit(key[i]) || key[i] == '_'
}

/// Whether a line is one that recorders write for other machines, such as
/// `sSPEED=048.000-ND`. Ordinary prose such as `Wind=strong` is not.
pub open spec fn machine_line(line: Seq<char>) -> bool {
    let at = first_index(line, is_char('='), 0);
    at < line.len() && machine_key(line.take(at))
}

fn find_char(v: &[char], c: char, from: usize) -> (r: usize)
    requires
        from <= v@.len(),
    ensures
        r == first_index(v@, is_char(c), from as int),
        from <= r <= v@.len(),
{
    let mut i: usize = from;
    while i < v.len() && v[i] != c
        invariant
            from <= i <= v@.len(),
            first_index(v@, is_char(c), from as int) == first_index(v@, is_char(c), i as int),
        decreases v@.len() - i,
    {
        i = i + 1;
    }
    i
}

/// `sSPEED=048.000-ND`, `zTRK1=Mid`: a lowercase vendor letter, then an
/// uppercase key. Ordinary prose such as `Wind=strong` does not match.
pub fn is_machine_line(line: &str) -> (r: bool)
    ensures
        r == machine_line(line@),
{
    let v = chars(line);
    machine_chars(v.as_slice())
}

fn machine_chars(v: &[char]) -> (r: bool)
    ensures
        r == machine_line(v@),
{
    let at: usize = find_char(v, '=', 0);
    if at == v.len() || at < 2 || at > 16 {
        return false;
    }
    let ghost key = v@.take(at as int);
    if !('a' <= v[0] && v[0] <= 'z') {
        return false;
    }
    let mut i: usize = 1;
    while i < at
        invariant
            1 <= i <= at < v@.len(),
            key == v@.take(at as int),
            at == first_index(v@, is_char('='), 0),
            forall|j: int|
                1 <= j < i ==> 'A' <= #[trigger] key[j] <= 'Z' || digit(key[j]) || key[j] == '_',
        decreases at - i,
    {
        let c = v[i];
        if !(('A' <= c && c <= 'Z') || is_digit(c) || c == '_') {
            assert(key[i as int] == c);
            return false;
        }
        i = i + 1;
    }
    true
}

/// The lines of `parts`, trimmed, that are neither empty nor for machines.
pub open spec fn human_lines(parts: Seq<Seq<char>>) -> Seq<Seq<char>>
    decreases parts.len(),
{
    if parts.len() == 0 {
        Seq::empty()
    } else {
        let line = trim_of(parts.last());
        if line.len() == 0 || machine_line(line) {
            human_lines(parts.drop_last())
        } else {
            human_lines(parts.drop_last()).push(line)
        }
    }
}

/// What a person wrote of a text, where there is any of it.
pub open spec fn human_of(s: Seq<char>) -> Option<Seq<char>> {
    let kept = human_lines(split_of(s, seq!['\r', '\n']));
    if kept.len() == 0 {
        None
    } else {
        Some(joined(kept, seq![' ']))
    }
}

/// Drops the `sKEY=value` lines recorders write into description fields for
/// other machines; whatever is left is what a person wrote.
pub fn human_text(s: &str) -> (r: Option<String>)
    ensures
        text_view(r) == human_of(s@),
{
    let v = chars(s);
    human_chars(v.as_slice())
}

fn human_chars(v: &[char]) -> (r: Option<String>)
    ensures
        text_view(r) == human_of(v@),
{
    let seps: [char; 2] = ['\r', '\n'];
    assert(seps@ =~= seq!['\r', '\n']);
    let parts = split_chars(v, seps.as_slice());
    let ghost all = runs(parts@);
    let mut kept: Vec<Vec<char>> = Vec::new();
    let mut i: usize = 0;
    proof {
        assert(all.take(0) =~= Seq::<Seq<char>>::empty());
        assert(runs(kept@) =~= human_lines(all.take(0)));
    }
    while i < parts.len()
        invariant
            i <= parts@.len(),
            all == runs(parts@),
            runs(kept@) == human_lines(all.take(i as int)),
        decreases parts@.len() - i,
    {
        proof {
            assert(all[i as int] == parts@[i as int]@);
            assert(all.take(i + 1).drop_last() =~= all.take(i as int));
        }
        let line = trim_chars(parts[i].as_slice());
        if line.len() > 0 && !machine_chars(line.as_slice()) {
            let ghost before = runs(kept@);
            let ghost l = line@;
            kept.push(line);
            assert(runs(kept@) =~= before.push(l));
        }
        i = i + 1;
    }
    assert(all.take(i as int) =~= all);
    assert(runs(kept@).len() == kept@.len());
    if kept.len() == 0 {
        return None;
    }
    let space: [char; 1] = [' '];
    assert(space@ =~= seq![' ']);
    let text = join_chars(&kept, space.as_slice());
    Some(string(text.as_slice()))
}

/// Where `pattern` first stands in `s` at or after `i`, or past its end.
pub open spec fn find_of(s: Seq<char>, pattern: Seq<char>, i: int) -> int
    decreases s.len() - i + 1,
{
    if i + pattern.len() > s.len() {
        s.len() as int + 1
    } else if s.subrange(i, i + pattern.len()) == pattern {
        i
    } else {
        find_of(s, pattern, i + 1)
    }
}

pub fn find_text(v: &[char], pattern: &[char], from: usize) -> (r: Option<usize>)
    requires
        from <= v@.len(),
    ensures
        match r {
            Some(i) => i == find_of(v@, pattern@, from as int) && from <= i && i + pattern@.len()
                <= v@.len() && v@.subrange(i as int, i + pattern@.len()) == pattern@,
            None => find_of(v@, pattern@, from as int) == v@.len() + 1,
        },
{
    let mut i: usize = from;
    let len: usize = v.len();
    while pattern.len() <= len - i
        invariant
            len == v@.len(),
            from <= i <= v@.len(),
            find_of(v@, pattern@, from as int) == find_of(v@, pattern@, i as int),
        decreases v@.len() - i,
    {
        let here = part(v, i, i + pattern.len());
        if same_chars(here.as_slice(), pattern) {
            return Some(i);
        }
        if i == len {
            assert(pattern@ =~= v@.subrange(i as int, i + pattern@.len()));
            return None;
        }
        i = i + 1;
    }
    None
}

/// What is between the first `<tag>` of `xml` and the next `</tag>`.
pub open spec fn between_tags(xml: Seq<char>, tag: Seq<char>) -> Option<Seq<char>> {
    let open = seq!['<'] + tag + seq!['>'];
    let close = seq!['<', '/'] + tag + seq!['>'];
    let start = find_of(xml, open, 0);
    if start > xml.len() {
        None
    } else {
        let end = find_of(xml, close, start + open.len());
        if end > xml.len() {
            None
        } else {
            Some(xml.subrange(start + open.len(), end))
        }
    }
}

pub open spec fn xml_text_of(xml: Seq<char>, tag: Seq<char>) -> Option<Seq<char>> {
    match between_tags(xml, tag) {
        Some(s) => human_of(unescape_of(s)),
        None => None,
    }
}

/// Text of the first `<tag>…</tag>`, unescaped.
pub fn xml_text(xml: &str, tag: &str) -> (r: Option<String>)
    ensures
        text_view(r) == xml_text_of(xml@, tag@),
{
    let v = chars(xml);
    let t = chars(tag);
    let mut open: Vec<char> = Vec::new();
    open.push('<');
    extend(&mut open, t.as_slice());
    open.push('>');
    assert(open@ =~= seq!['<'] + tag@ + seq!['>']);
    let mut close: Vec<char> = Vec::new();
    close.push('<');
    close.push('/');
    extend(&mut close, t.as_slice());
    close.push('>');
    assert(close@ =~= seq!['<', '/'] + tag@ + seq!['>']);
    match find_text(v.as_slice(), open.as_slice(), 0) {
        None => None,
        Some(at) => {
            let len: usize = v.len();
            assert(at + open@.len() <= len);
            let n: usize = open.len();
            let start: usize = at + n;
            match find_text(v.as_slice(), close.as_slice(), start) {
                None => None,
                Some(end) => {
                    let inner = part(v.as_slice(), start, end);
                    let text = unescape_chars(inner.as_slice());
                    human_chars(text.as_slice())
                },
            }
        },
    }
}

/// The text that starts a CDATA section.
pub open spec fn cdata_start() -> Seq<char> {
    seq!['<', '!', '[', 'C', 'D', 'A', 'T', 'A', '[']
}

/// The text that ends a CDATA section.
pub open spec fn cdata_end() -> Seq<char> {
    seq![']', ']', '>']
}

/// The character that a reference names, between its `&` and its `;`: by
/// name, or by its number in digits alone.
pub open spec fn reference_of(name: Seq<char>) -> Option<char> {
    if name == seq!['l', 't'] {
        Some('<')
    } else if name == seq!['g', 't'] {
        Some('>')
    } else if name == seq!['a', 'm', 'p'] {
        Some('&')
    } else if name == seq!['q', 'u', 'o', 't'] {
        Some('"')
    } else if name == seq!['a', 'p', 'o', 's'] {
        Some('\'')
    } else if name.len() == 0 || name[0] != '#' {
        None
    } else {
        let hex = name.len() > 1 && (name[1] == 'x' || name[1] == 'X');
        let digits = if hex {
            name.skip(2)
        } else {
            name.skip(1)
        };
        let code = if digits.len() > 0 && digits[0] == '+' {
            None
        } else if hex {
            parsed(digits, 16, u32::MAX as nat)
        } else {
            parsed(digits, 10, u32::MAX as nat)
        };
        match code {
            Some(u) => if 0xD800 <= u <= 0xDFFF || u > 0x10FFFF {
                None
            } else {
                Some(u as char)
            },
            None => None,
        }
    }
}

/// XML character data as text: CDATA sections kept verbatim, and entity and
/// character references resolved. Anything malformed is kept as written.
pub open spec fn unescape_of(s: Seq<char>) -> Seq<char>
    decreases s.len(),
    via unescape_ends
{
    if s.len() == 0 {
        s
    } else if s.len() >= 9 && s.take(9) == cdata_start() && find_of(s, cdata_end(), 9)
        <= s.len() {
        let end = find_of(s, cdata_end(), 9);
        s.subrange(9, end) + unescape_of(s.skip(end + 3))
    } else {
        let semicolon = first_index(s, is_char(';'), 1);
        if s[0] == '&' && semicolon < s.len() && reference_of(s.subrange(1, semicolon)) is Some {
            seq![reference_of(s.subrange(1, semicolon))->0] + unescape_of(s.skip(semicolon + 1))
        } else {
            seq![s[0]] + unescape_of(s.skip(1))
        }
    }
}

#[via_fn]
proof fn unescape_ends(s: Seq<char>) {
    if s.len() > 0 {
        lemma_find(s, cdata_end(), 9);
        crate::wav::lemma_first_index(s, is_char(';'), 1);
    }
}

pub proof fn lemma_find(s: Seq<char>, pattern: Seq<char>, i: int)
    ensures
        find_of(s, pattern, i) >= i || find_of(s, pattern, i) == s.len() + 1,
        find_of(s, pattern, i) <= s.len() ==> i <= find_of(s, pattern, i) && find_of(s, pattern, i)
            + pattern.len() <= s.len(),
    decreases s.len() - i + 1,
{
    if i + pattern.len() <= s.len() && s.subrange(i, i + pattern.len()) != pattern {
        lemma_find(s, pattern, i + 1);
    }
}

/// The character that a reference names, between its `&` and its `;`.
pub fn reference(name: &[char]) -> (r: Option<char>)
    ensures
        r == reference_of(name@),
{
    let text = string(name);
    let t = text.as_str();
    proof {
        reveal_strlit("lt");
        reveal_strlit("gt");
        reveal_strlit("amp");
        reveal_strlit("quot");
        reveal_strlit("apos");
        assert("lt"@ =~= seq!['l', 't']);
        assert("gt"@ =~= seq!['g', 't']);
        assert("amp"@ =~= seq!['a', 'm', 'p']);
        assert("quot"@ =~= seq!['q', 'u', 'o', 't']);
        assert("apos"@ =~= seq!['a', 'p', 'o', 's']);
    }
    if same(t, "lt") {
        return Some('<');
    }
    if same(t, "gt") {
        return Some('>');
    }
    if same(t, "amp") {
        return Some('&');
    }
    if same(t, "quot") {
        return Some('"');
    }
    if same(t, "apos") {
        return Some('\'');
    }
    if name.len() == 0 || name[0] != '#' {
        return None;
    }
    let hex = name.len() > 1 && (name[1] == 'x' || name[1] == 'X');
    let (from, radix): (usize, u64) = if hex {
        (2, 16)
    } else {
        (1, 10)
    };
    let digits = part(name, from, name.len());
    assert(digits@ =~= name@.skip(from as int));
    if digits.len() > 0 && digits[0] == '+' {
        return None;
    }
    let code: Option<u64> = parse_number(digits.as_slice(), radix, 0xFFFF_FFFF);
    match code {
        Some(u) => char_at(u as u32),
        None => None,
    }
}

/// XML character data as text.
pub fn unescape(s: &str) -> (r: String)
    ensures
        r@ == unescape_of(s@),
{
    let v = chars(s);
    let out = unescape_chars(v.as_slice());
    string(out.as_slice())
}

pub fn unescape_chars(v: &[char]) -> (r: Vec<char>)
    ensures
        r@ == unescape_of(v@),
{
    let open: [char; 9] = ['<', '!', '[', 'C', 'D', 'A', 'T', 'A', '['];
    let close: [char; 3] = [']', ']', '>'];
    assert(open@ =~= cdata_start());
    assert(close@ =~= cdata_end());
    let mut out: Vec<char> = Vec::new();
    let mut i: usize = 0;
    proof {
        assert(v@.skip(0) =~= v@);
        assert(out@ + unescape_of(v@.skip(0)) =~= unescape_of(v@));
    }
    while i < v.len()
        invariant
            i <= v@.len(),
            open@ == cdata_start(),
            close@ == cdata_end(),
            out@ + unescape_of(v@.skip(i as int)) == unescape_of(v@),
        decreases v@.len() - i,
    {
        let ghost before = out@;
        let rest = part(v, i, v.len());
        let ghost s = rest@;
        assert(s =~= v@.skip(i as int));
        let is_cdata = if rest.len() >= 9 {
            let head = part(rest.as_slice(), 0, 9);
            assert(head@ =~= s.take(9));
            same_chars(head.as_slice(), open.as_slice())
        } else {
            false
        };
        let section: Option<usize> = if is_cdata {
            find_text(rest.as_slice(), close.as_slice(), 9)
        } else {
            None
        };
        if let Some(end) = section {
            let inner = part(rest.as_slice(), 9, end);
            extend(&mut out, inner.as_slice());
            i = i + end + 3;
            proof {
                assert(s.skip(end + 3) =~= v@.skip(i as int));
                assert(out@ + unescape_of(v@.skip(i as int)) =~= before + unescape_of(s));
            }
        } else {
            let semicolon: usize = find_char(rest.as_slice(), ';', 1);
            let named_char: Option<char> = if rest[0] == '&' && semicolon < rest.len() {
                let name = part(rest.as_slice(), 1, semicolon);
                reference(name.as_slice())
            } else {
                None
            };
            match named_char {
                Some(c) => {
                    out.push(c);
                    i = i + semicolon + 1;
                    proof {
                        assert(s.skip(semicolon + 1) =~= v@.skip(i as int));
                        assert(out@ + unescape_of(v@.skip(i as int)) =~= before + unescape_of(s));
                    }
                },
                None => {
                    out.push(rest[0]);
                    i = i + 1;
                    proof {
                        assert(s.skip(1) =~= v@.skip(i as int));
                        assert(out@ + unescape_of(v@.skip(i as int)) =~= before + unescape_of(s));
                    }
                },
            }
        }
    }
    assert(out@ + unescape_of(v@.skip(i as int)) =~= out@);
    out
}

/// What stands for `c` in XML character data.
pub open spec fn escaped_char(c: char) -> Seq<char> {
    if c == '&' {
        seq!['&', 'a', 'm', 'p', ';']
    } else if c == '<' {
        seq!['&', 'l', 't', ';']
    } else if c == '>' {
        seq!['&', 'g', 't', ';']
    } else {
        seq![c]
    }
}

/// `s` as XML character data.
pub open spec fn escape_of(s: Seq<char>) -> Seq<char>
    decreases s.len(),
{
    if s.len() == 0 {
        s
    } else {
        escaped_char(s[0]) + escape_of(s.skip(1))
    }
}

/// `s` as XML character data.
pub fn escape(v: &[char]) -> (r: Vec<char>)
    ensures
        r@ == escape_of(v@),
{
    let mut out: Vec<char> = Vec::new();
    let mut i: usize = 0;
    proof {
        assert(v@.skip(0) =~= v@);
        assert(out@ + escape_of(v@.skip(0)) =~= escape_of(v@));
    }
    while i < v.len()
        invariant
            i <= v@.len(),
            out@ + escape_of(v@.skip(i as int)) == escape_of(v@),
        decreases v@.len() - i,
    {
        let ghost before = out@;
        let ghost s = v@.skip(i as int);
        let c = v[i];
        if c == '&' {
            out.push('&');
            out.push('a');
            out.push('m');
            out.push('p');
            out.push(';');
        } else if c == '<' {
            out.push('&');
            out.push('l');
            out.push('t');
            out.push(';');
        } else if c == '>' {
            out.push('&');
            out.push('g');
            out.push('t');
            out.push(';');
        } else {
            out.push(c);
        }
        i = i + 1;
        proof {
            assert(s[0] == c);
            assert(s.skip(1) =~= v@.skip(i as int));
            assert(out@ + escape_of(v@.skip(i as int)) =~= before + escape_of(s));
        }
    }
    assert(out@ + escape_of(v@.skip(i as int)) =~= out@);
    out
}

/// Text that was escaped reads back as it was.
pub proof fn escaped_text_reads_back(s: Seq<char>)
    ensures
        unescape_of(escape_of(s)) == s,
    decreases s.len(),
{
    if s.len() > 0 {
        let rest = escape_of(s.skip(1));
        escaped_text_reads_back(s.skip(1));
        if s[0] == '&' || s[0] == '<' || s[0] == '>' {
            lemma_reference_read(s[0], rest);
        } else {
            lemma_plain_read(s[0], rest);
        }
        assert(seq![s[0]] + s.skip(1) =~= s);
    }
}

proof fn lemma_plain_read(c: char, rest: Seq<char>)
    requires
        c != '&',
        c != '<',
    ensures
        unescape_of(seq![c] + rest) == seq![c] + unescape_of(rest),
{
    let t = seq![c] + rest;
    assert(t[0] == c);
    if t.len() >= 9 {
        assert(t.take(9)[0] == c);
        assert(cdata_start()[0] == '<');
    }
    assert(t.skip(1) =~= rest);
}

proof fn lemma_reference_read(c: char, rest: Seq<char>)
    requires
        c == '&' || c == '<' || c == '>',
    ensures
        unescape_of(escaped_char(c) + rest) == seq![c] + unescape_of(rest),
{
    let e = escaped_char(c);
    let t = e + rest;
    let k = e.len() - 1;
    lemma_semicolon(e, rest);
    assert(t[0] == '&');
    if t.len() >= 9 {
        assert(t.take(9)[0] == '&');
        assert(cdata_start()[0] == '<');
    }
    let name = t.subrange(1, k);
    assert(name =~= e.subrange(1, k));
    assert(t.skip(k + 1) =~= rest);
    if c == '&' {
        assert(name =~= seq!['a', 'm', 'p']);
        assert(seq!['l', 't'].len() == 2 && seq!['g', 't'].len() == 2);
    } else if c == '<' {
        assert(name =~= seq!['l', 't']);
    } else {
        assert(name =~= seq!['g', 't']);
        assert(name[0] != seq!['l', 't'][0]);
    }
    assert(reference_of(name) == Some(c));
}

proof fn lemma_semicolon(e: Seq<char>, rest: Seq<char>)
    requires
        e == escaped_char('&') || e == escaped_char('<') || e == escaped_char('>'),
    ensures
        first_index(e + rest, is_char(';'), 1) == e.len() - 1,
{
    let t = e + rest;
    reveal_with_fuel(first_index, 6);
    assert(t[1] == e[1] && t[2] == e[2] && t[3] == e[3]);
    if e.len() == 5 {
        assert(t[4] == e[4]);
    }
}

/// `hh:mm:ss` as seconds since midnight, tolerating the `-` and `.`
/// separators some recorders use.
pub open spec fn clock_seconds_of(s: Seq<char>) -> Option<u32> {
    let parts = split_of(s, seq![':', '-', '.']);
    let number = |i: int| parsed(trim_of(parts[i]), 10, u32::MAX as nat);
    if parts.len() < 3 {
        None
    } else {
        match (number(0), number(1), number(2)) {
            (Some(h), Some(m), Some(sec)) => if h < 24 && m < 60 && sec < 60 {
                Some((h * 3600 + m * 60 + sec) as u32)
            } else {
                None
            },
            _ => None,
        }
    }
}

fn trimmed_number(v: &[char]) -> (r: Option<u64>)
    ensures
        match r {
            Some(n) => parsed(trim_of(v@), 10, u32::MAX as nat) == Some(n as nat),
            None => parsed(trim_of(v@), 10, u32::MAX as nat) is None,
        },
{
    let t = trim_chars(v);
    parse_number(t.as_slice(), 10, 0xFFFF_FFFF)
}

/// `hh:mm:ss` as seconds since midnight, tolerating the `-` and `.`
/// separators some recorders use.
pub fn clock_seconds(s: &str) -> (r: Option<u32>)
    ensures
        r == clock_seconds_of(s@),
{
    let v = chars(s);
    let seps: [char; 3] = [':', '-', '.'];
    assert(seps@ =~= seq![':', '-', '.']);
    let parts = split_chars(v.as_slice(), seps.as_slice());
    assert(runs(parts@).len() == parts@.len());
    if parts.len() < 3 {
        return None;
    }
    assert(runs(parts@)[0] == parts@[0]@ && runs(parts@)[1] == parts@[1]@ && runs(parts@)[2]
        == parts@[2]@);
    match (
        trimmed_number(parts[0].as_slice()),
        trimmed_number(parts[1].as_slice()),
        trimmed_number(parts[2].as_slice()),
    ) {
        (Some(h), Some(m), Some(sec)) => {
            if h < 24 && m < 60 && sec < 60 {
                Some((h * 3600 + m * 60 + sec) as u32)
            } else {
                None
            }
        },
        _ => None,
    }
}

/// `c`, or a dash where it separates the parts of a date.
pub open spec fn dashed(c: char) -> char {
    if c == ':' || c == '/' || c == '.' {
        '-'
    } else {
        c
    }
}

/// A recorder's date with dashes between its parts, where it is as long as
/// one is.
pub open spec fn date_of(s: Seq<char>) -> Option<Seq<char>> {
    let date = trim_of(s).map_values(|c: char| dashed(c));
    if encode_utf8(date).len() as usize == 10 {
        Some(date)
    } else {
        None
    }
}

/// When the recording began, as its Broadcast WAV header says: the time
/// reference, or where it has none the time of origination.
pub open spec fn wall_start_of(b: BextView, rate: u32) -> Option<WallStartView> {
    let date = date_of(b.origination_date);
    if b.time_reference > 0 {
        Some(
            WallStartView {
                date,
                time: StartTime::Samples { count: b.time_reference, rate },
            },
        )
    } else {
        match clock_seconds_of(b.origination_time) {
            Some(seconds) => Some(WallStartView { date, time: StartTime::Seconds(seconds) }),
            None => None,
        }
    }
}

pub fn wall_start(b: &Bext, rate: u32) -> (r: Option<WallStart>)
    ensures
        start_view(r) == wall_start_of(b@, rate),
{
    let time = if b.time_reference > 0 {
        StartTime::Samples { count: b.time_reference, rate }
    } else {
        match clock_seconds(b.origination_time.as_str()) {
            Some(seconds) => StartTime::Seconds(seconds),
            None => {
                return None;
            },
        }
    };
    let given = chars(b.origination_date.as_str());
    let t = trim_chars(given.as_slice());
    let mut date: Vec<char> = Vec::new();
    let mut i: usize = 0;
    while i < t.len()
        invariant
            i <= t@.len(),
            date@ == t@.take(i as int).map_values(|c: char| dashed(c)),
        decreases t@.len() - i,
    {
        let c = t[i];
        if c == ':' || c == '/' || c == '.' {
            date.push('-');
        } else {
            date.push(c);
        }
        i = i + 1;
        assert(date@ =~= t@.take(i as int).map_values(|c: char| dashed(c)));
    }
    assert(t@.take(i as int) =~= t@);
    let text = string(date.as_slice());
    let date = if text.as_str().len() == 10 {
        Some(text)
    } else {
        None
    };
    Some(WallStart { date, time })
}

/// The text of the first entry with this id.
pub open spec fn info_with(info: Seq<(Seq<u8>, Seq<char>)>, id: Seq<u8>) -> Option<Seq<char>> {
    let at = first_index(info, |e: (Seq<u8>, Seq<char>)| e.0 == id, 0);
    if at < info.len() {
        Some(info[at].1)
    } else {
        None
    }
}

/// The RIFF INFO fields editors know: id, and what a view calls it.
pub const INFO_FIELDS: [([u8; 4], &'static str); 8] = [
    ([0x49, 0x4E, 0x41, 0x4D], "Title"),
    ([0x49, 0x41, 0x52, 0x54], "Artist"),
    ([0x49, 0x43, 0x4D, 0x54], "Comment"),
    ([0x49, 0x53, 0x42, 0x4A], "Subject"),
    ([0x49, 0x4B, 0x45, 0x59], "Keywords"),
    ([0x49, 0x43, 0x52, 0x44], "Created"),
    ([0x49, 0x43, 0x4F, 0x50], "Copyright"),
    ([0x49, 0x53, 0x46, 0x54], "Software"),
];

/// What a view calls an INFO field: its name where editors know it, and else
/// its id as text.
pub open spec fn info_name_of(id: Seq<u8>, k: int) -> Seq<char>
    decreases INFO_FIELDS@.len() - k,
{
    if k < 0 || k >= INFO_FIELDS@.len() {
        text_of(id)
    } else if INFO_FIELDS@[k].0@ == id {
        INFO_FIELDS@[k].1@
    } else {
        info_name_of(id, k + 1)
    }
}

/// What a view calls an INFO field.
pub fn info_name(id: &[u8; 4]) -> (r: String)
    ensures
        r@ == info_name_of(id@, 0),
{
    let fields = INFO_FIELDS;
    let n: usize = fields.len();
    let mut k: usize = 0;
    while k < n
        invariant
            k <= n,
            fields == INFO_FIELDS,
            n == fields@.len(),
            info_name_of(id@, 0) == info_name_of(id@, k as int),
        decreases n - k,
    {
        if crate::bytes::same4(&fields[k].0, id) {
            return fields[k].1.to_owned();
        }
        k = k + 1;
    }
    text(id.as_slice())
}

pub const ICMT: [u8; 4] = [0x49, 0x43, 0x4D, 0x54];

pub const ISBJ: [u8; 4] = [0x49, 0x53, 0x42, 0x4A];

pub const INAM: [u8; 4] = [0x49, 0x4E, 0x41, 0x4D];

/// What a person wrote in the first entry with this id.
pub open spec fn human_info(w: WavView, id: Seq<u8>) -> Option<Seq<char>> {
    match info_with(w.info, id) {
        Some(s) => human_of(s),
        None => None,
    }
}

/// The first source holding something a person typed wins. iXML NOTE is
/// where field recorders put notes entered on the device; bext Description
/// is often only machine key=value lines; INFO is the generic RIFF fallback.
pub open spec fn description_of(w: WavView) -> Option<Seq<char>> {
    let note = match w.ixml {
        Some(x) => xml_text_of(x, seq!['N', 'O', 'T', 'E']),
        None => None,
    };
    let bext = match w.bext {
        Some(b) => human_of(b.description),
        None => None,
    };
    if note is Some {
        note
    } else if bext is Some {
        bext
    } else if human_info(w, ICMT@) is Some {
        human_info(w, ICMT@)
    } else if human_info(w, ISBJ@) is Some {
        human_info(w, ISBJ@)
    } else {
        human_info(w, INAM@)
    }
}

pub open spec fn meta_of(w: WavView) -> MetaView {
    MetaView {
        description: description_of(w),
        recorder: match w.bext {
            Some(b) => if b.originator.len() == 0 {
                None
            } else {
                Some(b.originator)
            },
            None => None,
        },
        start: match w.bext {
            Some(b) => wall_start_of(b, w.sample_rate),
            None => None,
        },
    }
}

fn info_text(w: &Wav, id: &[u8; 4]) -> (r: Option<String>)
    ensures
        text_view(r) == human_info(w@, id@),
{
    let ghost p = |e: (Seq<u8>, Seq<char>)| e.0 == id@;
    let mut i: usize = 0;
    while i < w.info.len()
        invariant
            i <= w.info@.len(),
            p == (|e: (Seq<u8>, Seq<char>)| e.0 == id@),
            first_index(w@.info, p, 0) == first_index(w@.info, p, i as int),
        decreases w.info@.len() - i,
    {
        assert(w@.info[i as int] == (w.info@[i as int].0@, w.info@[i as int].1@));
        if crate::bytes::same4(&w.info[i].0, id) {
            return human_text(w.info[i].1.as_str());
        }
        i = i + 1;
    }
    assert(w@.info.len() == w.info@.len());
    None
}

fn description(w: &Wav) -> (r: Option<String>)
    ensures
        text_view(r) == description_of(w@),
{
    proof {
        reveal_strlit("NOTE");
        assert("NOTE"@ =~= seq!['N', 'O', 'T', 'E']);
    }
    let note = match &w.ixml {
        Some(x) => xml_text(x.as_str(), "NOTE"),
        None => None,
    };
    if note.is_some() {
        return note;
    }
    let bext = match &w.bext {
        Some(b) => human_text(b.description.as_str()),
        None => None,
    };
    if bext.is_some() {
        return bext;
    }
    let comment = info_text(w, &ICMT);
    if comment.is_some() {
        return comment;
    }
    let subject = info_text(w, &ISBJ);
    if subject.is_some() {
        return subject;
    }
    info_text(w, &INAM)
}

/// What a WAV file says about itself.
pub fn from_wav(w: &Wav) -> (r: Meta)
    ensures
        r@ == meta_of(w@),
{
    let recorder = match &w.bext {
        Some(b) => {
            if b.originator.as_str().is_empty() {
                None
            } else {
                Some(b.originator.clone())
            }
        },
        None => None,
    };
    let start = match &w.bext {
        Some(b) => wall_start(b, w.sample_rate),
        None => None,
    };
    let r = Meta { description: description(w), recorder, start };
    assert(r@ =~= meta_of(w@));
    r
}

/// The first of the candidates with something a person wrote.
pub open spec fn first_human(candidates: Seq<Seq<char>>) -> Option<Seq<char>>
    decreases candidates.len(),
{
    if candidates.len() == 0 {
        None
    } else if human_of(candidates[0]) is Some {
        human_of(candidates[0])
    } else {
        first_human(candidates.skip(1))
    }
}

/// For tagged formats (FLAC, MP3, ...), candidates in priority order.
pub fn from_tag_text(candidates: &[String]) -> (r: Meta)
    ensures
        r@ == (MetaView {
            description: first_human(candidates@.map_values(|s: String| s@)),
            recorder: None,
            start: None,
        }),
{
    let ghost all = candidates@.map_values(|s: String| s@);
    let mut i: usize = 0;
    assert(all.skip(0) =~= all);
    while i < candidates.len()
        invariant
            i <= candidates@.len(),
            all == candidates@.map_values(|s: String| s@),
            first_human(all) == first_human(all.skip(i as int)),
        decreases candidates@.len() - i,
    {
        let ghost rest = all.skip(i as int);
        proof {
            assert(rest[0] == candidates@[i as int]@);
            assert(rest.skip(1) =~= all.skip(i + 1));
        }
        let found = human_text(candidates[i].as_str());
        if found.is_some() {
            return Meta { description: found, recorder: None, start: None };
        }
        i = i + 1;
    }
    Meta { description: None, recorder: None, start: None }
}

/// Whether there is such a day in the calendar.
pub open spec fn real_date(year: nat, month: nat, day: nat) -> bool {
    let leap = year % 4 == 0 && (year % 100 != 0 || year % 400 == 0);
    let days = if month == 2 {
        if leap {
            29nat
        } else {
            28nat
        }
    } else if month == 4 || month == 6 || month == 9 || month == 11 {
        30nat
    } else {
        31nat
    };
    1 <= month <= 12 && 1 <= day <= days
}

/// The digits of `s`.
pub open spec fn digits_in(s: Seq<char>) -> Seq<char> {
    crate::rename::retained(s, |c: char| digit(c))
}

/// Whole seconds from midnight to the first sample, as many as 32 bits
/// count.
pub open spec fn whole_seconds(time: StartTime) -> nat {
    match time {
        StartTime::Samples { count, rate } => if rate == 0 || count as nat / rate as nat
            > u32::MAX {
            u32::MAX as nat
        } else {
            count as nat / rate as nat
        },
        StartTime::Seconds(s) => s as nat,
    }
}

/// When a recording began, as a date and a time of day: from the first eight
/// digits of its date, where they are a day of the calendar.
pub open spec fn recorded_of(start: WallStartView) -> Option<Moment> {
    match start.date {
        None => None,
        Some(date) => {
            let d = digits_in(date);
            let second = whole_seconds(start.time) % 86_400;
            match (
                parsed(d.subrange(0, 4), 10, u32::MAX as nat),
                parsed(d.subrange(4, 6), 10, u32::MAX as nat),
                parsed(d.subrange(6, 8), 10, u32::MAX as nat),
            ) {
                (Some(year), Some(month), Some(day)) => if d.len() >= 8 && real_date(
                    year,
                    month,
                    day,
                ) {
                    Some(
                        Moment {
                            year: year as i32,
                            month: month as u32,
                            day: day as u32,
                            hour: (second / 3600) as u32,
                            minute: (second / 60 % 60) as u32,
                            second: (second % 60) as u32,
                            nano: 0,
                        },
                    )
                } else {
                    None
                },
                _ => None,
            }
        },
    }
}

fn keep_digits(v: &[char]) -> (r: Vec<char>)
    ensures
        r@ == digits_in(v@),
        forall|i: int| 0 <= i < r@.len() ==> digit(#[trigger] r@[i]),
{
    let ghost keep = |c: char| digit(c);
    let mut out: Vec<char> = Vec::new();
    let mut i: usize = 0;
    assert(v@.take(0) =~= Seq::<char>::empty());
    while i < v.len()
        invariant
            i <= v@.len(),
            keep == (|c: char| digit(c)),
            out@ == crate::rename::retained(v@.take(i as int), keep),
            forall|i: int| 0 <= i < out@.len() ==> digit(#[trigger] out@[i]),
        decreases v@.len() - i,
    {
        assert(v@.take(i + 1).drop_last() =~= v@.take(i as int));
        if is_digit(v[i]) {
            out.push(v[i]);
        }
        i = i + 1;
    }
    assert(v@.take(i as int) =~= v@);
    out
}

/// When a recording began, as a date and a time of day.
pub fn recorded(start: &WallStart) -> (r: Option<Moment>)
    ensures
        r == recorded_of(start@),
{
    let date = match &start.date {
        Some(date) => chars(date.as_str()),
        None => {
            return None;
        },
    };
    let d = keep_digits(date.as_slice());
    if d.len() < 8 {
        return None;
    }
    let year_digits = part(d.as_slice(), 0, 4);
    let year: u64 = match parse_number(year_digits.as_slice(), 10, 0xFFFF_FFFF) {
        Some(n) => n,
        None => {
            return None;
        },
    };
    let month: u64 = match parse_number(part(d.as_slice(), 4, 6).as_slice(), 10, 0xFFFF_FFFF) {
        Some(n) => n,
        None => {
            return None;
        },
    };
    let day: u64 = match parse_number(part(d.as_slice(), 6, 8).as_slice(), 10, 0xFFFF_FFFF) {
        Some(n) => n,
        None => {
            return None;
        },
    };
    let leap = year % 4 == 0 && (year % 100 != 0 || year % 400 == 0);
    let days: u64 = if month == 2 {
        if leap {
            29
        } else {
            28
        }
    } else if month == 4 || month == 6 || month == 9 || month == 11 {
        30
    } else {
        31
    };
    if month < 1 || month > 12 || day < 1 || day > days {
        return None;
    }
    let whole: u64 = match start.time {
        StartTime::Samples { count, rate } => {
            if rate == 0 || count / (rate as u64) > 0xFFFF_FFFF {
                0xFFFF_FFFF
            } else {
                count / (rate as u64)
            }
        },
        StartTime::Seconds(s) => s as u64,
    };
    let second: u64 = whole % 86_400;
    proof {
        lemma_four_digits(year_digits@);
    }
    Some(
        Moment {
            year: year as i32,
            month: month as u32,
            day: day as u32,
            hour: (second / 3600) as u32,
            minute: (second / 60 % 60) as u32,
            second: (second % 60) as u32,
            nano: 0,
        },
    )
}

/// Four digits stand for a number below ten thousand.
proof fn lemma_four_digits(s: Seq<char>)
    requires
        s.len() == 4,
        forall|i: int| 0 <= i < s.len() ==> digit(#[trigger] s[i]),
    ensures
        parsed(s, 10, u32::MAX as nat) matches Some(n) ==> n < 10_000,
{
    reveal_with_fuel(crate::text::number_in, 6);
    assert(digit(s[0]) && digit(s[1]) && digit(s[2]) && digit(s[3]));
    assert(s.drop_last().last() == s[2]);
    assert(s.drop_last().drop_last().last() == s[1]);
    assert(s.drop_last().drop_last().drop_last().last() == s[0]);
}

} // verus!
