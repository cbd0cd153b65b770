//! Little-endian numbers in byte strings.

use vstd::prelude::*;

verus! {

/// The two bytes of `s` from `at` as a number.
pub open spec fn u16_le(s: Seq<u8>, at: int) -> int {
    s[at] + 0x100 * s[at + 1]
}

/// The four bytes of `s` from `at` as a number.
pub open spec fn u32_le(s: Seq<u8>, at: int) -> int {
    s[at] + 0x100 * s[at + 1] + 0x1_0000 * s[at + 2] + 0x100_0000 * s[at + 3]
}

/// The eight bytes of `s` from `at` as a number.
pub open spec fn u64_le(s: Seq<u8>, at: int) -> int {
    u32_le(s, at) + 0x1_0000_0000 * u32_le(s, at + 4)
}

/// `n` as four bytes.
pub open spec fn le4(n: u32) -> Seq<u8> {
    seq![
        (n % 0x100) as u8,
        (n / 0x100 % 0x100) as u8,
        (n / 0x1_0000 % 0x100) as u8,
        (n / 0x100_0000) as u8,
    ]
}

/// `n` as eight bytes.
pub open spec fn le8(n: u64) -> Seq<u8> {
    le4((n % 0x1_0000_0000) as u32) + le4((n / 0x1_0000_0000) as u32)
}

pub fn u16_at(b: &[u8], at: usize) -> (r: Option<u16>)
    ensures
        match r {
            Some(v) => at + 2 <= b@.len() && v == u16_le(b@, at as int),
            None => at + 2 > b@.len(),
        },
{
    if b.len() < 2 || b.len() - 2 < at {
        None
    } else {
        Some(b[at] as u16 + 0x100 * (b[at + 1] as u16))
    }
}

pub fn u32_at(b: &[u8], at: usize) -> (r: Option<u32>)
    ensures
        match r {
            Some(v) => at + 4 <= b@.len() && v == u32_le(b@, at as int),
            None => at + 4 > b@.len(),
        },
{
    if b.len() < 4 || b.len() - 4 < at {
        None
    } else {
        Some(
            b[at] as u32 + 0x100 * (b[at + 1] as u32) + 0x1_0000 * (b[at + 2] as u32) + 0x100_0000
                * (b[at + 3] as u32),
        )
    }
}

pub fn u64_at(b: &[u8], at: usize) -> (r: Option<u64>)
    ensures
        match r {
            Some(v) => at + 8 <= b@.len() && v == u64_le(b@, at as int),
            None => at + 8 > b@.len(),
        },
{
    if b.len() < 8 || b.len() - 8 < at {
        return None;
    }
    match (u32_at(b, at), u32_at(b, at + 4)) {
        (Some(low), Some(high)) => Some(low as u64 + 0x1_0000_0000 * (high as u64)),
        _ => None,
    }
}

/// The four bytes of `b` from `at`.
pub fn four(b: &[u8], at: usize) -> (r: Option<[u8; 4]>)
    ensures
        match r {
            Some(v) => at + 4 <= b@.len() && v@ == b@.subrange(at as int, at + 4),
            None => at + 4 > b@.len(),
        },
{
    if b.len() < 4 || b.len() - 4 < at {
        None
    } else {
        let v: [u8; 4] = [b[at], b[at + 1], b[at + 2], b[at + 3]];
        assert(v@ =~= b@.subrange(at as int, at + 4));
        Some(v)
    }
}

/// Whether two identifiers are the same.
pub fn same4(a: &[u8; 4], b: &[u8; 4]) -> (r: bool)
    ensures
        r == (a@ == b@),
{
    let r = a[0] == b[0] && a[1] == b[1] && a[2] == b[2] && a[3] == b[3];
    proof {
        if r {
            assert(a@ =~= b@);
        }
    }
    r
}

/// `n` as four bytes, little end first.
pub fn bytes4(n: u32) -> (r: [u8; 4])
    ensures
        r@ == le4(n),
{
    let r: [u8; 4] = [
        (n % 0x100) as u8,
        (n / 0x100 % 0x100) as u8,
        (n / 0x1_0000 % 0x100) as u8,
        (n / 0x100_0000) as u8,
    ];
    assert(r@ =~= le4(n));
    r
}

/// Puts `b` behind `out`.
pub fn put(out: &mut Vec<u8>, b: &[u8])
    ensures
        final(out)@ == old(out)@ + b@,
{
    out.extend_from_slice(b);
    assert(out@ =~= old(out)@ + b@);
}

/// Puts `n` behind `out` as four bytes.
pub fn put_u32(out: &mut Vec<u8>, n: u32)
    ensures
        final(out)@ == old(out)@ + le4(n),
{
    let b = bytes4(n);
    put(out, b.as_slice());
}

/// Puts `n` behind `out` as eight bytes.
pub fn put_u64(out: &mut Vec<u8>, n: u64)
    ensures
        final(out)@ == old(out)@ + le8(n),
{
    put_u32(out, (n % 0x1_0000_0000) as u32);
    put_u32(out, (n / 0x1_0000_0000) as u32);
    assert(out@ =~= old(out)@ + le8(n));
}

/// The bytes of `b` from `from` up to `to`.
pub fn cut(b: &[u8], from: usize, to: usize) -> (r: Vec<u8>)
    requires
        from <= to <= b@.len(),
    ensures
        r@ == b@.subrange(from as int, to as int),
{
    vstd::slice::slice_to_vec(vstd::slice::slice_subrange(b, from, to))
}

/// A number written as four bytes reads back as itself.
pub proof fn lemma_le4(n: u32)
    ensures
        u32_le(le4(n), 0) == n,
        le4(n).len() == 4,
{
}

/// A number written as eight bytes reads back as itself.
pub proof fn lemma_le8(n: u64)
    ensures
        u64_le(le8(n), 0) == n,
        le8(n).len() == 8,
{
    let low = (n % 0x1_0000_0000) as u32;
    let high = (n / 0x1_0000_0000) as u32;
    lemma_le4(low);
    lemma_le4(high);
    let s = le8(n);
    assert(s[0] == le4(low)[0] && s[1] == le4(low)[1] && s[2] == le4(low)[2] && s[3] == le4(
        low,
    )[3]);
    assert(s[4] == le4(high)[0] && s[5] == le4(high)[1] && s[6] == le4(high)[2] && s[7] == le4(
        high,
    )[3]);
}

/// The number at `at` in `s` is the number at the start of any stretch of
/// `s` that begins there.
pub proof fn lemma_u32_part(s: Seq<u8>, from: int, to: int, at: int)
    requires
        0 <= from,
        0 <= at,
        from + at + 4 <= to <= s.len(),
    ensures
        u32_le(s.subrange(from, to), at) == u32_le(s, from + at),
{
}

/// Byte `i` of a number, the lowest first: numbers below zero are counted
/// back from the first that the bytes cannot hold.
pub open spec fn byte_of(n: int, i: nat) -> u8
    decreases i,
{
    if i == 0 {
        (n % 256) as u8
    } else {
        byte_of(n / 256, (i - 1) as nat)
    }
}

/// Numbers stand in a file with their lowest byte first: two, four or eight
/// bytes of a number read as the number, and a number is written as them.
pub proof fn numbers_stand_lowest_byte_first(n: int)
    ensures
        0 <= n < 0x1_0000 ==> u16_le(Seq::new(2, |i: int| byte_of(n, i as nat)), 0) == n,
        0 <= n < 0x1_0000_0000 ==> u32_le(Seq::new(4, |i: int| byte_of(n, i as nat)), 0) == n
            && le4(n as u32) == Seq::new(4, |i: int| byte_of(n, i as nat)),
        0 <= n < 0x1_0000_0000_0000_0000 ==> u64_le(
            Seq::new(8, |i: int| byte_of(n, i as nat)),
            0,
        ) == n && le8(n as u64) == Seq::new(8, |i: int| byte_of(n, i as nat)),
{
    lemma_four_bytes(n);
    if 0 <= n < 0x1_0000_0000 {
        assert(le4(n as u32) =~= Seq::new(4, |i: int| byte_of(n, i as nat)));
        lemma_le4(n as u32);
    }
    if 0 <= n < 0x1_0000_0000_0000_0000 {
        let high = n / 0x1_0000_0000;
        let low = n % 0x1_0000_0000;
        lemma_four_bytes(high);
        lemma_four_bytes(low);
        lemma_byte_above(n, 0);
        lemma_byte_above(n, 1);
        lemma_byte_above(n, 2);
        lemma_byte_above(n, 3);
        let (l, h) = (le4(low as u32), le4(high as u32));
        let s = le8(n as u64);
        assert(s == l + h);
        assert(s[0] == l[0] && s[1] == l[1] && s[2] == l[2] && s[3] == l[3]);
        assert(s[4] == h[0] && s[5] == h[1] && s[6] == h[2] && s[7] == h[3]);
        lemma_low_part(n);
        assert(s =~= Seq::new(8, |i: int| byte_of(n, i as nat)));
        lemma_le8(n as u64);
    }
}

proof fn lemma_low_part(n: int)
    ensures
        n % 0x1_0000_0000 % 0x100 == n % 0x100,
        n % 0x1_0000_0000 / 0x100 % 0x100 == n / 0x100 % 0x100,
        n % 0x1_0000_0000 / 0x1_0000 % 0x100 == n / 0x1_0000 % 0x100,
        n % 0x1_0000_0000 / 0x100_0000 % 0x100 == n / 0x100_0000 % 0x100,
{
    let (q, r) = (n / 0x1_0000_0000, n % 0x1_0000_0000);
    assert(n == 0x1_0000_0000 * q + r);
    lemma_low_byte(0x100_0000 * q, r);
    assert(n / 0x100 == 0x100_0000 * q + r / 0x100);
    lemma_low_byte(0x1_0000 * q, r / 0x100);
    assert(n / 0x1_0000 == 0x1_0000 * q + r / 0x1_0000);
    lemma_low_byte(0x100 * q, r / 0x1_0000);
    assert(n / 0x100_0000 == 0x100 * q + r / 0x100_0000);
    lemma_low_byte(q, r / 0x100_0000);
}

proof fn lemma_low_byte(q: int, r: int)
    ensures
        (0x100 * q + r) % 0x100 == r % 0x100,
{
}

proof fn lemma_byte_above(n: int, i: nat)
    ensures
        byte_of(n, i + 4) == byte_of(n / 0x1_0000_0000, i),
{
    assert(byte_of(n, i + 4) == byte_of(n / 256, i + 3));
    assert(byte_of(n / 256, i + 3) == byte_of(n / 256 / 256, i + 2));
    assert(byte_of(n / 256 / 256, i + 2) == byte_of(n / 256 / 256 / 256, i + 1));
    assert(byte_of(n / 256 / 256 / 256, i + 1) == byte_of(n / 256 / 256 / 256 / 256, i));
    assert(n / 256 / 256 / 256 / 256 == n / 0x1_0000_0000);
}

proof fn lemma_four_bytes(n: int)
    ensures
        byte_of(n, 0) == n % 0x100,
        byte_of(n, 1) == n / 0x100 % 0x100,
        byte_of(n, 2) == n / 0x1_0000 % 0x100,
        byte_of(n, 3) == n / 0x100_0000 % 0x100,
{
    reveal_with_fuel(byte_of, 5);
    assert(n / 256 / 256 == n / 0x1_0000);
    assert(n / 256 / 256 / 256 == n / 0x100_0000);
}

} // verus!
