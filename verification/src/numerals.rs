//! That numbers written as text read as the numbers they are.

use crate::rename::{letters_of, number_text_of, roman_of, NumberKind, NumberRule};
use crate::text::{
    digit, digit_of, digit_value_of, digits_of, hex4_of, hex_digit_of, number_in, parsed, zero_padded,
};
use vstd::prelude::*;

verus! {

/// Digits written of a number are its digits: they read as the number, and
/// none of them is a zero that leads it.
pub proof fn digits_read_as_their_number(n: nat)
    ensures
        number_in(digits_of(n), 10) == Some(n),
        digits_of(n).len() > 0,
        forall|i: int| 0 <= i < digits_of(n).len() ==> digit(#[trigger] digits_of(n)[i]),
        n > 0 ==> digits_of(n)[0] != '0',
        n == 0 ==> digits_of(n) == seq!['0'],
    decreases n,
{
    let s = digits_of(n);
    if n < 10 {
        assert(s.drop_last() =~= Seq::<char>::empty());
        assert(s.last() == digit_of(n));
        assert(digit_value_of(s.last()) == n);
        assert(number_in(s.drop_last(), 10) == Some(0nat));
    } else {
        digits_read_as_their_number(n / 10);
        assert(s.drop_last() =~= digits_of(n / 10));
        assert(s.last() == digit_of(n % 10));
        assert(digit_value_of(s.last()) == n % 10);
        assert(s[0] == digits_of(n / 10)[0]);
    }
}

/// Zeros in front of a number fill it up to its width, and it reads as the
/// same number.
pub proof fn zeros_in_front_only_widen(n: nat, width: nat)
    ensures
        number_in(zero_padded(digits_of(n), width), 10) == Some(n),
        zero_padded(digits_of(n), width).len() >= width,
        zero_padded(digits_of(n), width).len() == width || zero_padded(digits_of(n), width)
            == digits_of(n),
        zero_padded(digits_of(n), width).skip(
            zero_padded(digits_of(n), width).len() - digits_of(n).len(),
        ) == digits_of(n),
{
    let s = digits_of(n);
    digits_read_as_their_number(n);
    if s.len() < width {
        lemma_zeros_read((width - s.len()) as nat, s);
        let zeros = Seq::new((width - s.len()) as nat, |i: int| '0');
        assert((zeros + s).skip(zeros.len() as int) =~= s);
    } else {
        assert(s.skip(0) =~= s);
    }
}

proof fn lemma_zeros_read(k: nat, s: Seq<char>)
    ensures
        number_in(Seq::new(k, |i: int| '0') + s, 10) == number_in(s, 10),
    decreases s.len(), k,
{
    let zeros = Seq::new(k, |i: int| '0');
    let t = zeros + s;
    if s.len() > 0 {
        lemma_zeros_read(k, s.drop_last());
        assert(t.drop_last() =~= zeros + s.drop_last());
        assert(t.last() == s.last());
    } else if k > 0 {
        lemma_zeros_read((k - 1) as nat, s);
        assert(t.drop_last() =~= Seq::new((k - 1) as nat, |i: int| '0') + s);
        assert(t.last() == '0');
    } else {
        assert(t =~= s);
    }
}

/// A number up to the most that is asked for reads from its digits, with a
/// plus before it or without, and a greater one does not.
pub proof fn a_written_number_is_read(n: nat, most: nat)
    ensures
        parsed(digits_of(n), 10, most) == if n <= most {
            Some(n)
        } else {
            None
        },
        parsed(seq!['+'] + digits_of(n), 10, most) == if n <= most {
            Some(n)
        } else {
            None
        },
        parsed(seq!['-'] + digits_of(n), 10, most) is None,
        parsed(Seq::empty(), 10, most) is None,
{
    digits_read_as_their_number(n);
    let s = digits_of(n);
    assert(digit(s[0]));
    let p = seq!['+'] + s;
    assert(p.skip(1) =~= s);
    let m = seq!['-'] + s;
    assert(m[0] == '-');
    lemma_not_a_number(m, 10, 0);
}

proof fn lemma_not_a_number(s: Seq<char>, radix: nat, i: int)
    requires
        0 <= i < s.len(),
        digit_value_of(s[i]) >= radix,
    ensures
        number_in(s, radix) is None,
    decreases s.len(),
{
    if i < s.len() - 1 {
        lemma_not_a_number(s.drop_last(), radix, i);
    }
}

/// A number of two bytes is written as four digits of sixteen, and reads as
/// itself.
pub proof fn hexadecimal_reads_as_its_number(n: nat)
    requires
        n < 0x1_0000,
    ensures
        hex4_of(n).len() == 4,
        number_in(hex4_of(n), 16) == Some(n),
{
    let s = hex4_of(n);
    let (x, y, z) = (n / 0x10, n / 0x100, n / 0x1000);
    lemma_hex_apart(n);
    let s3 = s.drop_last();
    let s2 = s3.drop_last();
    let s1 = s2.drop_last();
    assert(s1.drop_last() =~= Seq::<char>::empty());
    assert(number_in(s1.drop_last(), 16) == Some(0nat));
    lemma_hex_digit(z % 0x10);
    lemma_hex_digit(y % 0x10);
    lemma_hex_digit(x % 0x10);
    lemma_hex_digit(n % 0x10);
    assert(s1.last() == hex_digit_of(z % 0x10));
    assert(number_in(s1, 16) == Some(z));
    assert(s2.last() == hex_digit_of(y % 0x10));
    assert(number_in(s2, 16) == Some(y));
    assert(s3.last() == hex_digit_of(x % 0x10));
    assert(number_in(s3, 16) == Some(x));
    assert(s.last() == hex_digit_of(n % 0x10));
}

proof fn lemma_hex_digit(d: nat)
    requires
        d < 16,
    ensures
        digit_value_of(hex_digit_of(d)) == d,
{
}

proof fn lemma_hex_apart(n: nat)
    requires
        n < 0x1_0000,
    ensures
        n / 0x1000 % 0x10 == n / 0x1000,
        n / 0x100 == n / 0x1000 * 16 + n / 0x100 % 0x10,
        n / 0x10 == n / 0x100 * 16 + n / 0x10 % 0x10,
        n == n / 0x10 * 16 + n % 0x10,
{
    assert(n / 0x100 == n / 0x10 / 0x10);
    assert(n / 0x1000 == n / 0x100 / 0x10);
}

/// What letters count: `a` is one, `z` is twenty-six, `aa` follows.
pub open spec fn letters_count(s: Seq<char>, first: char) -> int
    decreases s.len(),
{
    if s.len() == 0 {
        0
    } else {
        26 * letters_count(s.drop_last(), first) + (s.last() as int - first as int + 1)
    }
}

/// Numbers in letters count as the numbers they are, and hold no letter but
/// the twenty-six.
pub proof fn letters_count_as_their_number(n: nat, first: char)
    requires
        first == 'a' || first == 'A',
    ensures
        letters_count(letters_of(n, first), first) == n,
        forall|i: int|
            0 <= i < letters_of(n, first).len() ==> first <= #[trigger] letters_of(n, first)[i]
                && (letters_of(n, first)[i] as int) < first as int + 26,
    decreases n,
{
    let s = letters_of(n, first);
    if n > 0 {
        let rest = ((n - 1) / 26) as nat;
        letters_count_as_their_number(rest, first);
        assert(s.drop_last() =~= letters_of(rest, first));
        assert(s.last() as int == first as int + (n - 1) % 26);
        assert forall|i: int| 0 <= i < s.len() implies first <= #[trigger] s[i] && (s[i] as int)
            < first as int + 26 by {
            if i < s.len() - 1 {
                assert(s[i] == letters_of(rest, first)[i]);
            }
        }
    }
}

/// What one Roman numeral stands for.
pub open spec fn roman_value(c: char) -> int {
    if c == 'M' {
        1000
    } else if c == 'D' {
        500
    } else if c == 'C' {
        100
    } else if c == 'L' {
        50
    } else if c == 'X' {
        10
    } else if c == 'V' {
        5
    } else if c == 'I' {
        1
    } else {
        0
    }
}

/// What Roman numerals stand for together: each counts, against the rest where
/// a greater one follows it.
pub open spec fn roman_count(s: Seq<char>) -> int
    decreases s.len(),
{
    if s.len() == 0 {
        0
    } else if s.len() > 1 && roman_value(s[0]) < roman_value(s[1]) {
        roman_count(s.skip(1)) - roman_value(s[0])
    } else {
        roman_count(s.skip(1)) + roman_value(s[0])
    }
}

proof fn lemma_roman_step(a: Seq<char>, s: Seq<char>)
    requires
        a.len() == 1 || (a.len() == 2 && roman_value(a[0]) < roman_value(a[1])),
        s.len() > 0 ==> roman_value(a.last()) >= roman_value(s[0]),
    ensures
        roman_count(a + s) == roman_count(s) + if a.len() == 1 {
            roman_value(a[0])
        } else {
            roman_value(a[1]) - roman_value(a[0])
        },
{
    let t = a + s;
    if a.len() == 1 {
        assert(t.skip(1) =~= s);
        if s.len() > 0 {
            assert(t[1] == s[0]);
        }
    } else {
        let u = t.skip(1);
        assert(t[0] == a[0] && t[1] == a[1]);
        assert(roman_count(t) == roman_count(u) - roman_value(a[0]));
        assert(u[0] == a[1]);
        assert(u.skip(1) =~= s);
        if s.len() > 0 {
            assert(u[1] == s[0]);
        }
    }
}

proof fn lemma_roman_leads(n: nat)
    ensures
        roman_count(roman_of(n)) == n,
        n > 0 ==> roman_of(n).len() > 0,
        n > 0 ==> 0 < roman_value(roman_of(n)[0]) <= 1000,
        0 < n < 900 ==> roman_value(roman_of(n)[0]) <= 500,
        0 < n < 400 ==> roman_value(roman_of(n)[0]) <= 100,
        0 < n < 90 ==> roman_value(roman_of(n)[0]) <= 50,
        0 < n < 40 ==> roman_value(roman_of(n)[0]) <= 10,
        0 < n < 9 ==> roman_value(roman_of(n)[0]) <= 5,
        0 < n < 4 ==> roman_value(roman_of(n)[0]) <= 1,
    decreases n,
{
    if n >= 1000 {
        lemma_roman_leads((n - 1000) as nat);
        lemma_roman_step(seq!['M'], roman_of((n - 1000) as nat));
    } else if n >= 900 {
        lemma_roman_leads((n - 900) as nat);
        lemma_roman_step(seq!['C', 'M'], roman_of((n - 900) as nat));
    } else if n >= 500 {
        lemma_roman_leads((n - 500) as nat);
        lemma_roman_step(seq!['D'], roman_of((n - 500) as nat));
    } else if n >= 400 {
        lemma_roman_leads((n - 400) as nat);
        lemma_roman_step(seq!['C', 'D'], roman_of((n - 400) as nat));
    } else if n >= 100 {
        lemma_roman_leads((n - 100) as nat);
        lemma_roman_step(seq!['C'], roman_of((n - 100) as nat));
    } else if n >= 90 {
        lemma_roman_leads((n - 90) as nat);
        lemma_roman_step(seq!['X', 'C'], roman_of((n - 90) as nat));
    } else if n >= 50 {
        lemma_roman_leads((n - 50) as nat);
        lemma_roman_step(seq!['L'], roman_of((n - 50) as nat));
    } else if n >= 40 {
        lemma_roman_leads((n - 40) as nat);
        lemma_roman_step(seq!['X', 'L'], roman_of((n - 40) as nat));
    } else if n >= 10 {
        lemma_roman_leads((n - 10) as nat);
        lemma_roman_step(seq!['X'], roman_of((n - 10) as nat));
    } else if n >= 9 {
        lemma_roman_leads((n - 9) as nat);
        lemma_roman_step(seq!['I', 'X'], roman_of((n - 9) as nat));
    } else if n >= 5 {
        lemma_roman_leads((n - 5) as nat);
        lemma_roman_step(seq!['V'], roman_of((n - 5) as nat));
    } else if n >= 4 {
        lemma_roman_leads((n - 4) as nat);
        lemma_roman_step(seq!['I', 'V'], roman_of((n - 4) as nat));
    } else if n >= 1 {
        lemma_roman_leads((n - 1) as nat);
        lemma_roman_step(seq!['I'], roman_of((n - 1) as nat));
    }
}

/// Roman numerals stand for the number they were made of.
pub proof fn roman_numerals_stand_for_their_number(n: nat)
    ensures
        roman_count(roman_of(n)) == n,
{
    lemma_roman_leads(n);
}

/// The number in a name reads as the number it is, in the way of writing that
/// was asked for: with a minus before it where it is below zero, and in
/// decimals with as many digits as were asked for, at least.
pub proof fn the_number_in_a_name_reads_as_it_is(number: i64, rule: NumberRule)
    ensures
        ({
            let text = number_text_of(number, rule);
            let size = if number < 0 {
                -number
            } else {
                number as int
            };
            let digits = if number < 0 {
                text.skip(1)
            } else {
                text
            };
            &&& number < 0 ==> text.len() > 0 && text[0] == '-'
            &&& match rule.kind {
                NumberKind::Decimal => number_in(digits, 10) == Some(size as nat) && digits.len()
                    >= rule.pad && (digits.len() == rule.pad || digits[0] != '0' || number == 0),
                NumberKind::Lower => letters_count(digits, 'a') == size,
                NumberKind::Upper => letters_count(digits, 'A') == size,
                NumberKind::Roman => roman_count(digits) == size,
            }
        }),
{
    let n = (if number < 0 {
        -number
    } else {
        number as int
    }) as nat;
    zeros_in_front_only_widen(n, rule.pad as nat);
    digits_read_as_their_number(n);
    letters_count_as_their_number(n, 'a');
    letters_count_as_their_number(n, 'A');
    roman_numerals_stand_for_their_number(n);
    let text = number_text_of(number, rule);
    if number < 0 {
        let digits = match rule.kind {
            NumberKind::Decimal => zero_padded(digits_of(n), rule.pad as nat),
            NumberKind::Lower => letters_of(n, 'a'),
            NumberKind::Upper => letters_of(n, 'A'),
            NumberKind::Roman => roman_of(n),
        };
        assert(text.skip(1) =~= digits);
    }
}

/// A digit counts as far as it is from the first: letters go on from ten, large
/// and small alike, and any other sign is no digit.
pub proof fn digits_count_in_their_order(c: char)
    ensures
        '0' <= c <= '9' ==> digit_value_of(c) == c as int - '0' as int,
        'a' <= c <= 'z' ==> digit_value_of(c) == 10 + (c as int - 'a' as int),
        'A' <= c <= 'Z' ==> digit_value_of(c) == 10 + (c as int - 'A' as int),
        !digit(c) && !('a' <= c <= 'z') && !('A' <= c <= 'Z') ==> digit_value_of(c) >= 36,
{
}

} // verus!
