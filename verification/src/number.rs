//! Decimal and hexadecimal notation of integers.
use vstd::prelude::*;

use crate::pattern::ascii_digit;

verus! {

/// The digit for `d`, in lower case above 9.
pub open spec fn digit_char(d: int) -> char {
    if d < 10 {
        (d + 48) as char
    } else {
        (d + 87) as char
    }
}

/// The value of a decimal digit.
pub open spec fn digit_value(c: char) -> int {
    c as int - 48
}

/// `n` in decimal notation.
pub open spec fn decimal(n: nat) -> Seq<char>
    decreases n,
{
    if n < 10 {
        seq![digit_char(n as int)]
    } else {
        decimal(n / 10).push(digit_char((n % 10) as int))
    }
}

/// `n` in decimal notation, with a sign if it is negative.
pub open spec fn signed_decimal(n: int) -> Seq<char> {
    if n < 0 {
        seq!['-'] + decimal((-n) as nat)
    } else {
        decimal(n as nat)
    }
}

/// Every character is a decimal digit.
pub open spec fn all_digits(s: Seq<char>) -> bool {
    forall|i: int| 0 <= i < s.len() ==> ascii_digit(#[trigger] s[i])
}

/// The number that a run of digits denotes.
pub open spec fn digits_value(s: Seq<char>) -> int
    decreases s.len(),
{
    if s.len() == 0 {
        0
    } else {
        digits_value(s.drop_last()) * 10 + digit_value(s.last())
    }
}

/// What follows the sign, if there is one.
pub open spec fn unsigned_part(s: Seq<char>) -> Seq<char> {
    if s.len() > 0 && (s[0] == '-' || s[0] == '+') {
        s.drop_first()
    } else {
        s
    }
}

/// The integer that `s` denotes: digits with an optional sign before them.
pub open spec fn integer_value(s: Seq<char>) -> Option<int> {
    let body = unsigned_part(s);
    if body.len() > 0 && all_digits(body) {
        Some(
            if s[0] == '-' {
                -digits_value(body)
            } else {
                digits_value(body)
            },
        )
    } else {
        None
    }
}

/// The integer that `s` denotes, if it is one and an `i64` can hold it.
pub open spec fn i64_value(s: Seq<char>) -> Option<i64> {
    match integer_value(s) {
        Some(v) if i64::MIN <= v <= i64::MAX => Some(v as i64),
        _ => None,
    }
}

/// Digits denote no negative number, and more of them no smaller one.
proof fn lemma_digits_value_grows(s: Seq<char>, k: int)
    requires
        all_digits(s),
        0 <= k <= s.len(),
    ensures
        0 <= digits_value(s.take(k)) <= digits_value(s),
    decreases s.len(),
{
    if s.len() > 0 {
        assert(ascii_digit(s.last()));
        if k == s.len() {
            lemma_digits_value_grows(s.drop_last(), 0);
            assert(s.take(k) =~= s);
            assert(s.drop_last().take(0).len() == 0);
        } else {
            lemma_digits_value_grows(s.drop_last(), k);
            assert(s.drop_last().take(k) =~= s.take(k));
        }
    }
}

/// The number that `s` denotes in decimal notation, with an optional sign, if an `i64` holds it.
pub fn parse_i64(s: &str) -> (r: Option<i64>)
    ensures
        r == i64_value(s@),
{
    let mut negative = false;
    let mut started = false;
    let mut signed = false;
    let mut acc: i128 = 0;
    let mut it = s.chars();
    let ghost body = unsigned_part(s@);
    let ghost mut n: int = 0;
    let ghost mut m: int = 0;
    assert(s@.skip(0) =~= s@);
    assert(body.take(0) =~= Seq::<char>::empty());
    loop
        invariant
            0 <= n <= s@.len(),
            vstd::std_specs::iter::IteratorSpec::remaining(&it) == s@.skip(n),
            body == unsigned_part(s@),
            signed <==> n > 0 && body.len() < s@.len(),
            started <==> m > 0,
            negative <==> n > 0 && s@[0] == '-',
            m == if signed {
                n - 1
            } else {
                n
            },
            0 <= m <= body.len(),
            all_digits(body.take(m)),
            acc == digits_value(body.take(m)),
            0 <= acc <= 0x8000_0000_0000_0000,
        decreases s@.len() - n,
    {
        match it.next() {
            None => {
                assert(body.take(m) =~= body);
                if !started {
                    return None;
                }
                if negative {
                    return Some((-acc) as i64);
                }
                if acc > 0x7fff_ffff_ffff_ffff {
                    return None;
                }
                return Some(acc as i64);
            },
            Some(c) => {
                proof {
                    assert(s@.skip(n)[0] == s@[n]);
                    assert(s@.skip(n).drop_first() =~= s@.skip(n + 1));
                }
                if !started && !signed && (c == '-' || c == '+') {
                    signed = true;
                    negative = c == '-';
                    proof {
                        n = n + 1;
                    }
                } else {
                    assert(body[m] == c);
                    if !('0' <= c && c <= '9') {
                        return None;
                    }
                    let d: i128 = (c as u32 - 48) as i128;
                    proof {
                        assert(body.take(m + 1).drop_last() =~= body.take(m));
                        assert(body.take(m + 1) =~= body.take(m).push(c));
                        assert(digits_value(body.take(m + 1)) == acc * 10 + d);
                    }
                    acc = acc * 10 + d;
                    if acc > 0x8000_0000_0000_0000 {
                        proof {
                            if all_digits(body) {
                                lemma_digits_value_grows(body, m + 1);
                            }
                        }
                        return None;
                    }
                    started = true;
                    proof {
                        n = n + 1;
                        m = m + 1;
                    }
                }
            },
        }
    }
}

/// The digit for `d`.
fn digit(d: u32) -> (c: char)
    requires
        d < 16,
    ensures
        c == digit_char(d as int),
{
    match d {
        0 => '0',
        1 => '1',
        2 => '2',
        3 => '3',
        4 => '4',
        5 => '5',
        6 => '6',
        7 => '7',
        8 => '8',
        9 => '9',
        10 => 'a',
        11 => 'b',
        12 => 'c',
        13 => 'd',
        14 => 'e',
        _ => 'f',
    }
}

/// Appends `n` in decimal notation.
pub fn push_decimal(out: &mut String, n: u64)
    ensures
        final(out)@ == old(out)@ + decimal(n as nat),
    decreases n,
{
    if n >= 10 {
        push_decimal(out, n / 10);
    }
    out.push(digit((n % 10) as u32));
    assert(out@ =~= old(out)@ + decimal(n as nat));
}

/// Appends `n` in decimal notation, with a sign if it is negative.
pub fn push_signed(out: &mut String, n: i64)
    ensures
        final(out)@ == old(out)@ + signed_decimal(n as int),
{
    if n < 0 {
        out.push('-');
        push_decimal(out, (-(n as i128)) as u64);
        assert(out@ =~= old(out)@ + signed_decimal(n as int));
    } else {
        push_decimal(out, n as u64);
    }
}

/// The four hexadecimal digits of `n`.
pub open spec fn hex4(n: int) -> Seq<char> {
    seq![
        digit_char(n / 4096 % 16),
        digit_char(n / 256 % 16),
        digit_char(n / 16 % 16),
        digit_char(n % 16),
    ]
}

/// Appends the four hexadecimal digits of `n`.
pub fn push_hex4(out: &mut String, n: u32)
    ensures
        final(out)@ == old(out)@ + hex4(n as int),
{
    out.push(digit(n / 4096 % 16));
    out.push(digit(n / 256 % 16));
    out.push(digit(n / 16 % 16));
    out.push(digit(n % 16));
    assert(out@ =~= old(out)@ + hex4(n as int));
}

} // verus!
