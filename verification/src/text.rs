//! Text as sequences of characters: white space, trimming, decimal and
//! hexadecimal digits, and the way from a byte string to text.

use vstd::prelude::*;
use vstd::utf8::{decode_utf8, valid_utf8};

verus! {

/// Whether `c` has Unicode's White_Space property.
pub open spec fn white(c: char) -> bool {
    let u = c as u32;
    ||| 0x09 <= u <= 0x0D
    ||| u == 0x20
    ||| u == 0x85
    ||| u == 0xA0
    ||| u == 0x1680
    ||| 0x2000 <= u <= 0x200A
    ||| u == 0x2028
    ||| u == 0x2029
    ||| u == 0x202F
    ||| u == 0x205F
    ||| u == 0x3000
}

/// `s` from its first character that is not white space.
pub open spec fn trim_start_of(s: Seq<char>) -> Seq<char>
    decreases s.len(),
{
    if s.len() > 0 && white(s[0]) {
        trim_start_of(s.skip(1))
    } else {
        s
    }
}

/// `s` up to its last character that is not white space.
pub open spec fn trim_end_of(s: Seq<char>) -> Seq<char>
    decreases s.len(),
{
    if s.len() > 0 && white(s.last()) {
        trim_end_of(s.drop_last())
    } else {
        s
    }
}

/// `s` without white space at either end.
pub open spec fn trim_of(s: Seq<char>) -> Seq<char> {
    trim_end_of(trim_start_of(s))
}

/// The decimal digit for `d`.
pub open spec fn digit_of(d: nat) -> char {
    (48 + d) as char
}

/// `n` in decimal, without leading zeros.
pub open spec fn digits_of(n: nat) -> Seq<char>
    decreases n,
{
    if n < 10 {
        seq![digit_of(n)]
    } else {
        digits_of(n / 10).push(digit_of(n % 10))
    }
}

/// The lower-case hexadecimal digit for `d`.
pub open spec fn hex_digit_of(d: nat) -> char {
    if d < 10 {
        (48 + d) as char
    } else {
        (87 + d) as char
    }
}

/// `n` as four hexadecimal digits.
pub open spec fn hex4_of(n: nat) -> Seq<char> {
    seq![
        hex_digit_of(n / 0x1000 % 0x10),
        hex_digit_of(n / 0x100 % 0x10),
        hex_digit_of(n / 0x10 % 0x10),
        hex_digit_of(n % 0x10),
    ]
}

/// `s` with zeros in front of it up to `width` characters.
pub open spec fn zero_padded(s: Seq<char>, width: nat) -> Seq<char> {
    if s.len() >= width {
        s
    } else {
        Seq::new((width - s.len()) as nat, |i: int| '0') + s
    }
}

pub fn is_white(c: char) -> (r: bool)
    ensures
        r == white(c),
{
    let u: u32 = c as u32;
    (0x09 <= u && u <= 0x0D) || u == 0x20 || u == 0x85 || u == 0xA0 || u == 0x1680
        || (0x2000 <= u && u <= 0x200A) || u == 0x2028 || u == 0x2029 || u == 0x202F
        || u == 0x205F || u == 0x3000
}

/// The characters of `s`.
pub fn chars(s: &str) -> (r: Vec<char>)
    ensures
        r@ == s@,
{
    let mut out: Vec<char> = Vec::new();
    for c in it: s.chars()
        invariant
            it.seq() == s@,
            out@ == s@.take(it.index()),
    {
        out.push(c);
        assert(s@.take(it.index() + 1) =~= s@.take(it.index()).push(c));
    }
    assert(s@.take(s@.len() as int) =~= s@);
    out
}

/// `String::push`: the string with `c` at its end.
pub assume_specification[ String::push ](s: &mut String, c: char)
    ensures
        final(s)@ == old(s)@.push(c),
;

/// The string of the characters of `v`, in order.
pub fn string(v: &[char]) -> (r: String)
    ensures
        r@ == v@,
{
    let mut out = String::new();
    let mut i: usize = 0;
    assert(out@ =~= v@.take(0));
    while i < v.len()
        invariant
            i <= v@.len(),
            out@ == v@.take(i as int),
        decreases v@.len() - i,
    {
        out.push(v[i]);
        i = i + 1;
        assert(out@ =~= v@.take(i as int));
    }
    assert(v@.take(i as int) =~= v@);
    out
}

/// `std::str::from_utf8`: the text that `b` encodes where it is UTF-8, and
/// nothing where it is not.
#[verifier::external_body]
pub(crate) fn utf8(b: &[u8]) -> (r: Option<String>)
    ensures
        match r {
            Some(s) => valid_utf8(b@) && s@ == decode_utf8(b@),
            None => !valid_utf8(b@),
        },
{
    std::str::from_utf8(b).ok().map(str::to_owned)
}

/// `char::from_u32`: the character whose code point is `u`, where `u` is
/// one.
#[verifier::external_body]
pub(crate) fn char_at(u: u32) -> (r: Option<char>)
    ensures
        match r {
            Some(c) => c == u as char && !(0xD800 <= u <= 0xDFFF || u > 0x10FFFF),
            None => 0xD800 <= u <= 0xDFFF || u > 0x10FFFF,
        },
{
    char::from_u32(u)
}

/// The characters of `v` from `from` up to `to`.
pub fn part(v: &[char], from: usize, to: usize) -> (r: Vec<char>)
    requires
        from <= to <= v@.len(),
    ensures
        r@ == v@.subrange(from as int, to as int),
{
    let mut out: Vec<char> = Vec::new();
    let mut i: usize = from;
    while i < to
        invariant
            from <= i <= to <= v@.len(),
            out@ == v@.subrange(from as int, i as int),
        decreases to - i,
    {
        out.push(v[i]);
        i = i + 1;
        assert(v@.subrange(from as int, i as int) =~= v@.subrange(from as int, i - 1).push(
            v@[i - 1],
        ));
    }
    out
}

/// Puts `more` behind `out`.
pub fn extend(out: &mut Vec<char>, more: &[char])
    ensures
        final(out)@ == old(out)@ + more@,
{
    let mut i: usize = 0;
    while i < more.len()
        invariant
            i <= more@.len(),
            out@ == old(out)@ + more@.take(i as int),
        decreases more@.len() - i,
    {
        out.push(more[i]);
        i = i + 1;
        assert(more@.take(i as int) =~= more@.take(i - 1).push(more@[i - 1]));
    }
    assert(more@.take(i as int) =~= more@);
}

/// Whether two sequences of characters are the same.
pub fn same_chars(a: &[char], b: &[char]) -> (r: bool)
    ensures
        r == (a@ == b@),
{
    if a.len() != b.len() {
        return false;
    }
    let mut i: usize = 0;
    while i < a.len()
        invariant
            i <= a@.len(),
            a@.len() == b@.len(),
            a@.take(i as int) == b@.take(i as int),
        decreases a@.len() - i,
    {
        if a[i] != b[i] {
            assert(a@[i as int] != b@[i as int]);
            return false;
        }
        i = i + 1;
        assert(a@.take(i as int) =~= a@.take(i - 1).push(a@[i - 1]));
        assert(b@.take(i as int) =~= b@.take(i - 1).push(b@[i - 1]));
    }
    assert(a@.take(i as int) =~= a@);
    assert(b@.take(i as int) =~= b@);
    true
}

/// Whether two texts are the same.
pub fn same(a: &str, b: &str) -> (r: bool)
    ensures
        r == (a@ == b@),
{
    let x = chars(a);
    let y = chars(b);
    same_chars(x.as_slice(), y.as_slice())
}

/// The characters of `v` without white space at either end.
pub fn trim_chars(v: &[char]) -> (r: Vec<char>)
    ensures
        r@ == trim_of(v@),
{
    let mut from: usize = 0;
    assert(v@.skip(0) =~= v@);
    while from < v.len() && is_white(v[from])
        invariant
            from <= v@.len(),
            trim_start_of(v@) == trim_start_of(v@.skip(from as int)),
        decreases v@.len() - from,
    {
        from = from + 1;
        assert(v@.skip(from - 1).skip(1) =~= v@.skip(from as int));
    }
    assert(trim_start_of(v@.skip(from as int)) == v@.skip(from as int));
    let mut to: usize = v.len();
    assert(v@.subrange(from as int, to as int) =~= v@.skip(from as int));
    while to > from && is_white(v[to - 1])
        invariant
            from <= to <= v@.len(),
            trim_end_of(v@.skip(from as int)) == trim_end_of(
                v@.subrange(from as int, to as int),
            ),
        decreases to,
    {
        to = to - 1;
        assert(v@.subrange(from as int, to + 1).drop_last() =~= v@.subrange(
            from as int,
            to as int,
        ));
    }
    part(v, from, to)
}

/// `s` without white space at either end.
pub fn trim(s: &str) -> (r: String)
    ensures
        r@ == trim_of(s@),
{
    let v = chars(s);
    let t = trim_chars(v.as_slice());
    string(t.as_slice())
}

/// `n` in decimal.
pub fn decimal(n: u64) -> (r: Vec<char>)
    ensures
        r@ == digits_of(n as nat),
    decreases n,
{
    if n < 10 {
        let mut out: Vec<char> = Vec::new();
        out.push((48u8 + n as u8) as char);
        assert(out@ =~= digits_of(n as nat));
        out
    } else {
        let mut out = decimal(n / 10);
        out.push((48u8 + (n % 10) as u8) as char);
        out
    }
}

fn hex_digit(d: u16) -> (r: char)
    requires
        d < 16,
    ensures
        r == hex_digit_of(d as nat),
{
    if d < 10 {
        (48u8 + d as u8) as char
    } else {
        (87u8 + d as u8) as char
    }
}

/// `n` as four hexadecimal digits.
pub fn hex4(n: u16) -> (r: Vec<char>)
    ensures
        r@ == hex4_of(n as nat),
{
    let mut out: Vec<char> = Vec::new();
    out.push(hex_digit(n / 0x1000 % 0x10));
    out.push(hex_digit(n / 0x100 % 0x10));
    out.push(hex_digit(n / 0x10 % 0x10));
    out.push(hex_digit(n % 0x10));
    assert(out@ =~= hex4_of(n as nat));
    out
}

/// What `str::to_lowercase` makes of a text.
pub uninterp spec fn lowered(s: Seq<char>) -> Seq<char>;

/// What `str::to_uppercase` makes of a text.
pub uninterp spec fn uppered(s: Seq<char>) -> Seq<char>;

/// What `char::to_uppercase` makes of a character.
pub uninterp spec fn uppered_char(c: char) -> Seq<char>;

/// What `char::is_alphanumeric` says of a character.
pub uninterp spec fn alphanumeric(c: char) -> bool;

/// What `char::is_uppercase` says of a character.
pub uninterp spec fn uppercase(c: char) -> bool;

/// What `char::is_lowercase` says of a character.
pub uninterp spec fn lowercase(c: char) -> bool;

/// `str::to_lowercase`: Unicode's lower case of `s`, a function of `s`
/// alone.
#[verifier::external_body]
pub(crate) fn lower(s: &str) -> (r: String)
    ensures
        r@ == lowered(s@),
{
    s.to_lowercase()
}

/// `str::to_uppercase`: Unicode's upper case of `s`, a function of `s`
/// alone.
#[verifier::external_body]
pub(crate) fn upper(s: &str) -> (r: String)
    ensures
        r@ == uppered(s@),
{
    s.to_uppercase()
}

/// `char::to_uppercase`: the characters of the upper case of `c`, a
/// function of `c` alone.
#[verifier::external_body]
pub(crate) fn upper_char(c: char) -> (r: String)
    ensures
        r@ == uppered_char(c),
{
    c.to_uppercase().to_string()
}

/// `char::is_alphanumeric`: whether Unicode has `c` as a letter or a
/// number, a function of `c` alone.
#[verifier::external_body]
pub(crate) fn is_alphanumeric(c: char) -> (r: bool)
    ensures
        r == alphanumeric(c),
{
    c.is_alphanumeric()
}

/// `char::is_uppercase`: whether Unicode has `c` as upper case, a function
/// of `c` alone.
#[verifier::external_body]
pub(crate) fn is_uppercase(c: char) -> (r: bool)
    ensures
        r == uppercase(c),
{
    c.is_uppercase()
}

/// `char::is_lowercase`: whether Unicode has `c` as lower case, a function
/// of `c` alone.
#[verifier::external_body]
pub(crate) fn is_lowercase(c: char) -> (r: bool)
    ensures
        r == lowercase(c),
{
    c.is_lowercase()
}

/// Whether `c` is one of the ten ASCII digits.
pub open spec fn digit(c: char) -> bool {
    '0' <= c <= '9'
}

pub fn is_digit(c: char) -> (r: bool)
    ensures
        r == digit(c),
{
    '0' <= c && c <= '9'
}

/// Whether `c` is a control code: the code points from 0 to 0x1F and from
/// 0x7F to 0x9F.
pub open spec fn control(c: char) -> bool {
    c as u32 <= 0x1F || 0x7F <= c as u32 <= 0x9F
}

pub fn is_control(c: char) -> (r: bool)
    ensures
        r == control(c),
{
    let u: u32 = c as u32;
    u <= 0x1F || (0x7F <= u && u <= 0x9F)
}

/// The stretches of `s` between the characters that are in `seps`: one more
/// than there are of those.
pub open spec fn split_of(s: Seq<char>, seps: Seq<char>) -> Seq<Seq<char>>
    decreases s.len(),
{
    if s.len() == 0 {
        seq![Seq::empty()]
    } else {
        let before = split_of(s.drop_last(), seps);
        if seps.contains(s.last()) {
            before.push(Seq::empty())
        } else {
            before.update(before.len() - 1, before.last().push(s.last()))
        }
    }
}

/// Lists of characters by their views.
pub open spec fn runs(v: Seq<Vec<char>>) -> Seq<Seq<char>> {
    v.map_values(|c: Vec<char>| c@)
}

/// Whether `c` is in `v`.
pub fn holds(v: &[char], c: char) -> (r: bool)
    ensures
        r == v@.contains(c),
{
    let mut i: usize = 0;
    while i < v.len()
        invariant
            i <= v@.len(),
            forall|j: int| 0 <= j < i ==> v@[j] != c,
        decreases v@.len() - i,
    {
        if v[i] == c {
            assert(v@[i as int] == c);
            return true;
        }
        i = i + 1;
    }
    false
}

/// The stretches of `v` between the characters that are in `seps`.
pub fn split_chars(v: &[char], seps: &[char]) -> (r: Vec<Vec<char>>)
    ensures
        runs(r@) == split_of(v@, seps@),
{
    let mut out: Vec<Vec<char>> = Vec::new();
    let mut last: Vec<char> = Vec::new();
    let mut i: usize = 0;
    proof {
        assert(v@.take(0) =~= Seq::<char>::empty());
        assert(runs(out@).push(last@) =~= split_of(v@.take(0), seps@));
    }
    while i < v.len()
        invariant
            i <= v@.len(),
            runs(out@).push(last@) == split_of(v@.take(i as int), seps@),
        decreases v@.len() - i,
    {
        let c = v[i];
        let ghost had = runs(out@);
        let ghost word = last@;
        proof {
            assert(v@.take(i + 1).drop_last() =~= v@.take(i as int));
            assert(v@.take(i + 1).last() == c);
            assert(had.push(word).last() == word);
        }
        if holds(seps, c) {
            out.push(last);
            last = Vec::new();
            assert(runs(out@) =~= had.push(word));
            assert(runs(out@).push(last@) =~= had.push(word).push(Seq::empty()));
        } else {
            last.push(c);
            assert(had.push(word).update(had.len() as int, word.push(c)) =~= had.push(last@));
        }
        i = i + 1;
    }
    assert(v@.take(i as int) =~= v@);
    let ghost had = runs(out@);
    let ghost word = last@;
    out.push(last);
    assert(runs(out@) =~= had.push(word));
    out
}

/// `parts` one behind another with `sep` between.
pub open spec fn joined(parts: Seq<Seq<char>>, sep: Seq<char>) -> Seq<char>
    decreases parts.len(),
{
    if parts.len() == 0 {
        Seq::empty()
    } else if parts.len() == 1 {
        parts[0]
    } else {
        joined(parts.drop_last(), sep) + sep + parts.last()
    }
}

/// `parts` one behind another with `sep` between.
pub fn join_chars(parts: &Vec<Vec<char>>, sep: &[char]) -> (r: Vec<char>)
    ensures
        r@ == joined(runs(parts@), sep@),
{
    let ghost all = runs(parts@);
    let mut out: Vec<char> = Vec::new();
    let mut i: usize = 0;
    assert(all.take(0) =~= Seq::<Seq<char>>::empty());
    while i < parts.len()
        invariant
            i <= parts@.len(),
            all == runs(parts@),
            out@ == joined(all.take(i as int), sep@),
        decreases parts@.len() - i,
    {
        proof {
            assert(all[i as int] == parts@[i as int]@);
            assert(all.take(i + 1).drop_last() =~= all.take(i as int));
        }
        let ghost before = out@;
        if i > 0 {
            extend(&mut out, sep);
        } else {
            assert(before.len() == 0);
        }
        extend(&mut out, parts[i].as_slice());
        proof {
            if i == 0 {
                assert(out@ =~= all.take(1)[0]);
            } else {
                assert(out@ =~= before + sep@ + all[i as int]);
            }
        }
        i = i + 1;
    }
    assert(all.take(i as int) =~= all);
    out
}

/// Writes `n` with at least `width` digits, zeros in front.
pub fn put_padded(out: &mut Vec<char>, n: u64, width: usize)
    ensures
        final(out)@ == old(out)@ + zero_padded(digits_of(n as nat), width as nat),
{
    let d = decimal(n);
    let ghost before = out@;
    let mut i: usize = d.len();
    let ghost first = i as int;
    while i < width
        invariant
            first == d@.len(),
            first <= i,
            i <= width || i == first,
            out@ == before + Seq::new((i - first) as nat, |j: int| '0'),
        decreases width - i,
    {
        out.push('0');
        i = i + 1;
        assert(out@ =~= before + Seq::new((i - first) as nat, |j: int| '0'));
    }
    extend(out, d.as_slice());
    assert(out@ =~= before + zero_padded(digits_of(n as nat), width as nat));
}

/// The value of `c` as a digit, or 36 where it is none.
pub open spec fn digit_value_of(c: char) -> nat {
    if '0' <= c <= '9' {
        (c as int - '0' as int) as nat
    } else if 'a' <= c <= 'z' {
        (c as int - 'a' as int + 10) as nat
    } else if 'A' <= c <= 'Z' {
        (c as int - 'A' as int + 10) as nat
    } else {
        36
    }
}

/// The number that digits of this radix stand for, where all of `s` are.
pub open spec fn number_in(s: Seq<char>, radix: nat) -> Option<nat>
    decreases s.len(),
{
    if s.len() == 0 {
        Some(0)
    } else {
        match number_in(s.drop_last(), radix) {
            Some(n) => if digit_value_of(s.last()) < radix {
                Some(n * radix + digit_value_of(s.last()))
            } else {
                None
            },
            None => None,
        }
    }
}

/// The number up to `most` that `s` stands for: digits, with or without a
/// `+` before them.
pub open spec fn parsed(s: Seq<char>, radix: nat, most: nat) -> Option<nat> {
    let digits = if s.len() > 1 && s[0] == '+' {
        s.skip(1)
    } else {
        s
    };
    if s.len() == 0 {
        None
    } else {
        match number_in(digits, radix) {
            Some(n) => if n <= most {
                Some(n)
            } else {
                None
            },
            None => None,
        }
    }
}

fn digit_number(c: char) -> (r: u64)
    ensures
        r == digit_value_of(c),
{
    let u: u32 = c as u32;
    if '0' <= c && c <= '9' {
        (u - 48) as u64
    } else if 'a' <= c && c <= 'z' {
        (u - 97 + 10) as u64
    } else if 'A' <= c && c <= 'Z' {
        (u - 65 + 10) as u64
    } else {
        36
    }
}

proof fn lemma_number_grows(s: Seq<char>, radix: nat, i: int)
    requires
        0 <= i <= s.len(),
        radix >= 1,
    ensures
        number_in(s.take(i), radix) is None ==> number_in(s, radix) is None,
        number_in(s, radix) matches Some(n) ==> (number_in(s.take(i), radix) matches Some(m) && m
            <= n),
    decreases s.len() - i,
{
    if i < s.len() {
        lemma_number_grows(s, radix, i + 1);
        assert(s.take(i + 1).drop_last() =~= s.take(i));
        match number_in(s.take(i), radix) {
            Some(m) => {
                assert(m * radix >= m) by (nonlinear_arith)
                    requires
                        radix >= 1,
                ;
            },
            None => {},
        }
    } else {
        assert(s.take(i) =~= s);
    }
}

/// The number up to `most` that `v` stands for: digits, with or without a
/// `+` before them.
pub fn parse_number(v: &[char], radix: u64, most: u64) -> (r: Option<u64>)
    requires
        2 <= radix <= 36,
    ensures
        match r {
            Some(n) => parsed(v@, radix as nat, most as nat) == Some(n as nat),
            None => parsed(v@, radix as nat, most as nat) is None,
        },
{
    if v.len() == 0 {
        return None;
    }
    let from: usize = if v.len() > 1 && v[0] == '+' {
        1
    } else {
        0
    };
    let ghost s = v@.skip(from as int);
    assert(v@.skip(0) =~= v@);
    let mut n: u64 = 0;
    let mut i: usize = from;
    assert(s.take(0) =~= Seq::<char>::empty());
    while i < v.len()
        invariant
            from <= i <= v@.len(),
            v@.len() > 0,
            2 <= radix <= 36,
            s == v@.skip(from as int),
            from == if v@.len() > 1 && v@[0] == '+' {
                1int
            } else {
                0
            },
            number_in(s.take(i - from), radix as nat) == Some(n as nat),
            n <= most,
        decreases v@.len() - i,
    {
        let d: u64 = digit_number(v[i]);
        proof {
            assert(v@.skip(0) =~= v@);
            assert(s.take(i - from + 1).drop_last() =~= s.take(i - from));
            assert(s.take(i - from + 1).last() == v@[i as int]);
            lemma_number_grows(s, radix as nat, i - from + 1);
            assert(n * radix + d <= 0xFFFF_FFFF_FFFF_FFFF * 36 + 36) by (nonlinear_arith)
                requires
                    n <= 0xFFFF_FFFF_FFFF_FFFF,
                    radix <= 36,
                    d <= 36,
            ;
            assert((n as nat) * (radix as nat) == n * radix);
        }
        if d >= radix {
            return None;
        }
        let next: u128 = (n as u128) * (radix as u128) + d as u128;
        if next > most as u128 {
            return None;
        }
        n = next as u64;
        i = i + 1;
    }
    proof {
        assert(s.take(i - from) =~= s);
        assert(v@.skip(0) =~= v@);
    }
    Some(n)
}

/// Text that is trimmed stays as it is when it is trimmed again.
pub proof fn trimming_twice_is_trimming_once(s: Seq<char>)
    ensures
        trim_of(trim_of(s)) == trim_of(s),
{
    lemma_trim_start(s);
    let a = trim_start_of(s);
    lemma_trim_end(a);
    let b = trim_end_of(a);
    if b.len() > 0 {
        assert(b[0] == a[0]);
    }
    assert(trim_start_of(b) == b);
}

/// Trimmed text starts and ends with something to see.
pub proof fn lemma_trimmed(s: Seq<char>)
    ensures
        trim_of(s).len() > 0 ==> !white(trim_of(s)[0]) && !white(trim_of(s).last()),
{
    let a = trim_start_of(s);
    lemma_trim_start(s);
    lemma_trim_end(a);
    if trim_of(s).len() > 0 {
        assert(trim_of(s)[0] == a[0]);
    }
}

proof fn lemma_trim_start(s: Seq<char>)
    ensures
        ({
            let t = trim_start_of(s);
            t.len() > 0 ==> !white(t[0])
        }),
    decreases s.len(),
{
    if s.len() > 0 && white(s[0]) {
        lemma_trim_start(s.skip(1));
    }
}

proof fn lemma_trim_end(s: Seq<char>)
    ensures
        ({
            let t = trim_end_of(s);
            &&& t.len() > 0 ==> !white(t.last())
            &&& t.len() <= s.len()
            &&& t == s.take(t.len() as int)
            &&& trim_end_of(t) == t
        }),
    decreases s.len(),
{
    if s.len() > 0 && white(s.last()) {
        lemma_trim_end(s.drop_last());
        let t = trim_end_of(s);
        assert(s.drop_last().take(t.len() as int) =~= s.take(t.len() as int));
    } else {
        assert(s.take(s.len() as int) =~= s);
    }
}

/// Whether a text is nothing but white space.
pub open spec fn blank(s: Seq<char>) -> bool {
    forall|i: int| 0 <= i < s.len() ==> white(#[trigger] s[i])
}

/// Whether a text has no white space at either end.
pub open spec fn tidy(s: Seq<char>) -> bool {
    s.len() > 0 ==> !white(s[0]) && !white(s.last())
}

/// Trimming cuts the white space around a text and nothing else: whatever
/// stands between has no white space at its ends and stays as it is.
pub proof fn trimming_cuts_only_white_space(a: Seq<char>, m: Seq<char>, b: Seq<char>)
    requires
        blank(a),
        blank(b),
        tidy(m),
    ensures
        trim_of(a + m + b) == m,
    decreases a.len() + b.len(),
{
    let s = a + m + b;
    if a.len() > 0 {
        let rest = a.skip(1);
        assert forall|i: int| 0 <= i < rest.len() implies white(#[trigger] rest[i]) by {
            assert(rest[i] == a[i + 1]);
        }
        assert(s[0] == a[0]);
        assert(s.skip(1) =~= rest + m + b);
        trimming_cuts_only_white_space(rest, m, b);
    } else if m.len() == 0 {
        assert(s =~= b);
        lemma_blank_start(b);
    } else {
        assert(s[0] == m[0]);
        assert(s =~= m + b);
        lemma_blank_end(m, b);
    }
}

proof fn lemma_blank_start(b: Seq<char>)
    requires
        blank(b),
    ensures
        trim_of(b).len() == 0,
    decreases b.len(),
{
    if b.len() > 0 {
        let rest = b.skip(1);
        assert forall|i: int| 0 <= i < rest.len() implies white(#[trigger] rest[i]) by {
            assert(rest[i] == b[i + 1]);
        }
        assert(white(b[0]));
        lemma_blank_start(rest);
    }
}

proof fn lemma_blank_end(m: Seq<char>, b: Seq<char>)
    requires
        blank(b),
        m.len() > 0,
        !white(m.last()),
    ensures
        trim_end_of(m + b) == m,
    decreases b.len(),
{
    let s = m + b;
    if b.len() > 0 {
        let rest = b.drop_last();
        assert forall|i: int| 0 <= i < rest.len() implies white(#[trigger] rest[i]) by {
            assert(rest[i] == b[i]);
        }
        assert(white(b[b.len() - 1]));
        assert(s.last() == b.last());
        assert(s.drop_last() =~= m + rest);
        lemma_blank_end(m, rest);
    } else {
        assert(s =~= m);
    }
}

/// Every text is what trimming leaves of it with white space around, and what
/// is left has none at its ends.
pub proof fn only_the_ends_are_trimmed(s: Seq<char>) -> (ends: (Seq<char>, Seq<char>))
    ensures
        s == ends.0 + trim_of(s) + ends.1,
        blank(ends.0),
        blank(ends.1),
        tidy(trim_of(s)),
    decreases s.len(),
{
    lemma_trimmed(s);
    if s.len() > 0 && white(s[0]) {
        let (a, b) = only_the_ends_are_trimmed(s.skip(1));
        let more = seq![s[0]] + a;
        assert forall|i: int| 0 <= i < more.len() implies white(#[trigger] more[i]) by {
            if i > 0 {
                assert(more[i] == a[i - 1]);
            }
        }
        assert(s =~= seq![s[0]] + s.skip(1));
        assert(s =~= more + trim_of(s) + b);
        (more, b)
    } else {
        let b = lemma_trimmed_end(s);
        assert(s =~= Seq::<char>::empty() + trim_of(s) + b);
        (Seq::empty(), b)
    }
}

proof fn lemma_trimmed_end(s: Seq<char>) -> (b: Seq<char>)
    ensures
        s == trim_end_of(s) + b,
        blank(b),
    decreases s.len(),
{
    if s.len() > 0 && white(s.last()) {
        let b = lemma_trimmed_end(s.drop_last());
        let more = b.push(s.last());
        assert(s =~= s.drop_last().push(s.last()));
        assert(s =~= trim_end_of(s) + more);
        assert forall|i: int| 0 <= i < more.len() implies white(#[trigger] more[i]) by {
            if i < b.len() {
                assert(more[i] == b[i]);
            }
        }
        more
    } else {
        assert(s =~= s + Seq::<char>::empty());
        Seq::empty()
    }
}

/// Of the plain characters, the space, the tab and what ends or feeds a line
/// are white space. No letter, digit or sign is.
pub proof fn plain_white_space(c: char)
    requires
        c as u32 <= 0x7F,
    ensures
        white(c) <==> c == ' ' || c == '\t' || c == '\n' || c == '\r' || c as u32 == 0x0B || c as u32
            == 0x0C,
{
}

/// A text splits at its separators and nowhere else: what stands between them
/// is whole, and joined with the separator it is the text again.
pub proof fn a_text_splits_at_its_separators(
    a: Seq<char>,
    c: char,
    b: Seq<char>,
    seps: Seq<char>,
)
    ensures
        seps.contains(c) ==> split_of(a + seq![c] + b, seps) == split_of(a, seps) + split_of(
            b,
            seps,
        ),
        (forall|i: int| 0 <= i < a.len() ==> !seps.contains(#[trigger] a[i])) ==> split_of(a, seps)
            == seq![a],
        split_of(b, seps).len() > 0,
    decreases a.len() + b.len(),
{
    let none = Seq::<char>::empty();
    lemma_some_part(a, seps);
    lemma_some_part(b, seps);
    if seps.contains(c) {
        let s = a + seq![c] + b;
        if b.len() == 0 {
            assert(s.drop_last() =~= a);
            assert(s.last() == c);
            assert(b =~= none);
            assert(split_of(s, seps) =~= split_of(a, seps) + split_of(b, seps));
        } else {
            let rest = b.drop_last();
            a_text_splits_at_its_separators(a, c, rest, seps);
            assert(s.drop_last() =~= a + seq![c] + rest);
            assert(s.last() == b.last());
            let (x, y) = (split_of(a, seps), split_of(rest, seps));
            lemma_some_part(rest, seps);
            assert((x + y).last() == y.last());
            assert(split_of(s, seps) =~= x + split_of(b, seps));
        }
    }
    lemma_one_part(a, seps);
}

proof fn lemma_some_part(s: Seq<char>, seps: Seq<char>)
    ensures
        split_of(s, seps).len() > 0,
    decreases s.len(),
{
    if s.len() > 0 {
        lemma_some_part(s.drop_last(), seps);
    }
}

proof fn lemma_one_part(a: Seq<char>, seps: Seq<char>)
    ensures
        (forall|i: int| 0 <= i < a.len() ==> !seps.contains(#[trigger] a[i])) ==> split_of(a, seps)
            == seq![a],
    decreases a.len(),
{
    if forall|i: int| 0 <= i < a.len() ==> !seps.contains(#[trigger] a[i]) {
        if a.len() > 0 {
            let rest = a.drop_last();
            assert forall|i: int| 0 <= i < rest.len() implies !seps.contains(#[trigger] rest[i]) by {
                assert(rest[i] == a[i]);
            }
            lemma_one_part(rest, seps);
            assert(!seps.contains(a[a.len() - 1]));
            assert(split_of(a, seps) =~= seq![rest.push(a.last())]);
            assert(rest.push(a.last()) =~= a);
        } else {
            assert(a =~= Seq::<char>::empty());
            assert(split_of(a, seps) =~= seq![a]);
        }
    }
}

/// A text that was split at one separator is what its parts make, joined with
/// the separator.
pub proof fn a_split_text_joins_again(s: Seq<char>, c: char)
    ensures
        joined(split_of(s, seq![c]), seq![c]) == s,
    decreases s.len(),
{
    let sep = seq![c];
    if s.len() > 0 {
        let rest = s.drop_last();
        a_split_text_joins_again(rest, c);
        let before = split_of(rest, sep);
        lemma_some_part(rest, sep);
        let parts = split_of(s, sep);
        if sep.contains(s.last()) {
            assert(s.last() == c);
            assert(parts.drop_last() =~= before);
            assert(joined(parts, sep) =~= rest + sep);
            assert(s =~= rest.push(c));
        } else {
            assert(parts.drop_last() =~= before.drop_last());
            assert(parts.last() == before.last().push(s.last()));
            assert(joined(parts, sep) =~= joined(before, sep).push(s.last()));
            assert(s =~= rest.push(s.last()));
        }
    } else {
        assert(split_of(s, sep) =~= seq![Seq::<char>::empty()]);
        assert(joined(split_of(s, sep), sep) =~= s);
    }
}

} // verus!
